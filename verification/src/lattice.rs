//! The lattice: a position-indexed graph of candidate word edges over the
//! input text, grown left to right, with least-cost connection resolved
//! incrementally as edges are added.

use vstd::prelude::*;

use crate::dic::grammar::Grammar;
use crate::dic::lexicon::entry_matches_at;
use crate::dic::lexicon::EntryV;
use crate::error::EngineError;

verus! {

/// Is byte `i` of the text the first byte of a character? In UTF-8 exactly
/// the bytes whose top two bits are not `10` start a character.
pub open spec fn is_char_start(text: Seq<u8>, i: int) -> bool {
    0 <= i < text.len() && (text[i] & 0xC0) != 0x80
}

/// Byte offset `b` of the text is the end of some chain of dictionary words
/// that starts at offset 0, each word beginning on a character start.
pub open spec fn reachable(lex: Seq<EntryV>, text: Seq<u8>, b: int) -> bool
    decreases b,
{
    b == 0 || (0 < b <= text.len() && exists|a: int, w: int|
        0 <= a < b && is_char_start(text, a) && #[trigger] entry_matches_at(lex, text, w, a, b)
            && reachable(lex, text, a))
}

/// Some edge of the list is connected to the start of the text.
pub open spec fn has_connected(l: Seq<Node>) -> bool {
    exists|j: int| 0 <= j < l.len() && l[j].connected
}

/// An ordered run of word edges that covers `[from, to)` of the text
/// exactly: contiguous, every edge a dictionary match that begins on a
/// character start.
pub open spec fn chain_ok(
    lex: Seq<EntryV>,
    text: Seq<u8>,
    p: Seq<(int, int, int)>,
    from: int,
    to: int,
) -> bool {
    &&& (p.len() == 0 ==> from == to)
    &&& (p.len() > 0 ==> p[0].1 == from && p[p.len() - 1].2 == to)
    &&& forall|i: int| 0 <= i < p.len() - 1 ==> (#[trigger] p[i]).2 == p[i + 1].1
    &&& forall|i: int|
        0 <= i < p.len() ==> ({
            let t = #[trigger] p[i];
            &&& entry_matches_at(lex, text, t.0, t.1, t.2)
            &&& is_char_start(text, t.1)
            &&& t.1 < t.2
        })
}

/// An ordered run of word edges that covers the whole text exactly.
pub open spec fn valid_word_path(lex: Seq<EntryV>, text: Seq<u8>, p: Seq<(int, int, int)>) -> bool {
    chain_ok(lex, text, p, 0, text.len() as int)
}


/// The views of the end lists, for specification purposes.
pub open spec fn lists_view(lists: Seq<Vec<Node>>) -> Seq<Seq<Node>> {
    lists.map_values(|l: Vec<Node>| l@)
}

/// The synthetic begin edge.
pub open spec fn spec_bos() -> Node {
    Node {
        begin: 0,
        end: 0,
        left_id: 0,
        right_id: 0,
        cost: 0,
        word_id: None,
        total_cost: 0,
        best_previous: None,
        connected: true,
    }
}

/// The end lists of a freshly built lattice over a text of `n` bytes: the
/// begin edge alone, every other list empty.
pub open spec fn spec_initial_lists(n: int) -> Seq<Seq<Node>> {
    Seq::new((n + 2) as nat, |e: int| if e == 0 { seq![spec_bos()] } else { Seq::<Node>::empty() })
}

/// The predecessor the engine selects among the first `n` edges of an end
/// list, for a new edge with the given left id and cost: the connected edge
/// minimizing (its total cost + the connection cost + the new edge's own
/// cost), the earliest such edge on an exact tie. Returns the predecessor's
/// index and the new edge's total cost.
pub open spec fn spec_best_pred(g: Grammar, l: Seq<Node>, left_id: u16, cost: i32, n: int) -> Option<(int, int)>
    decreases n,
{
    if n <= 0 {
        None
    } else {
        let prev = spec_best_pred(g, l, left_id, cost, n - 1);
        if l[n - 1].connected {
            let t = l[n - 1].total_cost + g.spec_cost(l[n - 1].right_id as int, left_id as int) + cost;
            match prev {
                None => Some((n - 1, t)),
                Some((j, bt)) => if t < bt {
                    Some((n - 1, t))
                } else {
                    Some((j, bt))
                },
            }
        } else {
            prev
        }
    }
}

/// The edge the engine stores for span `[begin, end)` against the given
/// predecessor list: connected through the selected predecessor where one
/// exists, disconnected otherwise.
pub open spec fn spec_new_node(
    g: Grammar,
    preds: Seq<Node>,
    begin: int,
    end: int,
    left_id: u16,
    right_id: u16,
    cost: i32,
    word_id: Option<u32>,
) -> Node {
    match spec_best_pred(g, preds, left_id, cost, preds.len() as int) {
        None => Node {
            begin: begin as usize,
            end: end as usize,
            left_id,
            right_id,
            cost,
            word_id,
            total_cost: 0,
            best_previous: None,
            connected: false,
        },
        Some((j, t)) => Node {
            begin: begin as usize,
            end: end as usize,
            left_id,
            right_id,
            cost,
            word_id,
            total_cost: t as i128,
            best_previous: Some(j as usize),
            connected: true,
        },
    }
}

/// The end lists after inserting one edge for span `[begin, end)`.
pub open spec fn spec_insert(
    g: Grammar,
    lists: Seq<Seq<Node>>,
    begin: int,
    end: int,
    left_id: u16,
    right_id: u16,
    cost: i32,
    word_id: Option<u32>,
) -> Seq<Seq<Node>> {
    lists.update(
        end,
        lists[end].push(spec_new_node(g, lists[begin], begin, end, left_id, right_id, cost, word_id)),
    )
}

/// The chain of edges obtained by walking the recorded best predecessors
/// back from the edge at position `cur_idx` of the end list at `cur_list`,
/// in text order.
pub open spec fn spec_backtrack(lists: Seq<Seq<Node>>, cur_list: int, cur_idx: int) -> Seq<(int, int, int)>
    decreases cur_list,
{
    if cur_list <= 0 {
        Seq::empty()
    } else {
        let node = lists[cur_list][cur_idx];
        let edge = (node.word_id->0 as int, node.begin as int, node.end as int);
        if 0 <= node.begin < cur_list {
            spec_backtrack(lists, node.begin as int, node.best_previous->0 as int).push(edge)
        } else {
            seq![edge]
        }
    }
}

/// One edge of the lattice.
pub struct Node {
    /// Byte offset where the edge begins.
    pub begin: usize,
    /// Byte offset just past the edge.
    pub end: usize,
    /// Connection id towards the preceding edge.
    pub left_id: u16,
    /// Connection id towards the following edge.
    pub right_id: u16,
    /// The edge's own cost.
    pub cost: i32,
    /// The dictionary word this edge stands for; the synthetic boundary
    /// edges carry none.
    pub word_id: Option<u32>,
    /// Least total cost of any connected chain from the start of the text
    /// through this edge.
    pub total_cost: i128,
    /// Index, in the end list at `begin`, of the predecessor realizing
    /// `total_cost`.
    pub best_previous: Option<usize>,
    /// Whether a chain of edges connects the start of the text to this edge.
    pub connected: bool,
}

/// The lattice over one input text.
pub struct Lattice {
    /// Length of the text in bytes.
    pub text_len: usize,
    /// `end_lists[e]` holds the edges that end at byte offset `e`; list 0
    /// holds the synthetic begin edge alone, and list `text_len + 1` the
    /// synthetic end edge once it is connected.
    pub end_lists: Vec<Vec<Node>>,
    /// Whether the synthetic end edge has been added.
    pub eos_done: bool,
    /// Number of rows of the connection cost table the lattice is built
    /// against.
    pub rows: u16,
    /// Number of columns of the same table.
    pub cols: u16,
    /// The text, for specification purposes.
    pub text: Ghost<Seq<u8>>,
    /// The lexicon, for specification purposes.
    pub lex: Ghost<Seq<EntryV>>,
}

impl Lattice {
    /// The synthetic begin edge.
    pub open spec fn bos_ok(n: Node) -> bool {
        &&& n.begin == 0
        &&& n.end == 0
        &&& n.right_id == 0
        &&& n.word_id is None
        &&& n.total_cost == 0
        &&& n.best_previous is None
        &&& n.connected
    }

    /// Everything the lattice maintains about one edge stored in the end
    /// list at `e >= 1`.
    pub open spec fn edge_ok(self, e: int, n: Node) -> bool {
        &&& n.end == e
        &&& 0 <= n.begin < e
        &&& n.begin <= self.text_len
        &&& n.right_id < self.rows
        &&& -32768 <= n.cost <= 32767
        &&& (1 <= e <= self.text_len ==> ({
            &&& n.word_id is Some
            &&& entry_matches_at(self.lex@, self.text@, n.word_id->0 as int, n.begin as int, e)
            &&& is_char_start(self.text@, n.begin as int)
        }))
        &&& (e == self.text_len + 1 ==> n.begin == self.text_len && n.word_id is None)
        &&& (n.connected ==> ({
            &&& reachable(self.lex@, self.text@, n.begin as int)
            &&& n.best_previous is Some
            &&& n.best_previous->0 < self.end_lists@[n.begin as int]@.len()
            &&& self.end_lists@[n.begin as int]@[n.best_previous->0 as int].connected
            &&& -65536 * e <= n.total_cost <= 65536 * e
        }))
    }

    /// The lattice's invariant.
    pub open spec fn wf(self) -> bool {
        &&& self.text@.len() == self.text_len
        &&& self.end_lists@.len() == self.text_len + 2
        &&& self.rows >= 1
        &&& self.cols >= 1
        &&& self.end_lists@[0]@.len() == 1
        &&& Self::bos_ok(self.end_lists@[0]@[0])
        &&& forall|e: int, k: int|
            1 <= e < self.end_lists@.len() && 0 <= k < self.end_lists@[e]@.len() ==> self.edge_ok(
                e,
                #[trigger] self.end_lists@[e]@[k],
            )
        &&& (!self.eos_done ==> self.end_lists@[self.text_len + 1]@.len() == 0)
        &&& (self.eos_done ==> self.end_lists@[self.text_len + 1]@.len() == 1)
    }

    /// After `connect_eos`: is the synthetic end edge connected, that is,
    /// does some chain of word edges cover the whole text?
    pub open spec fn eos_connected(self) -> bool {
        self.end_lists@[self.text_len + 1]@[0].connected
    }

    /// A connected edge ending at `b >= 1` witnesses that `b` is reachable.
    pub proof fn lemma_connected_reachable(self, b: int, k: int)
        requires
            self.wf(),
            1 <= b <= self.text_len,
            0 <= k < self.end_lists@[b]@.len(),
            self.end_lists@[b]@[k].connected,
        ensures
            reachable(self.lex@, self.text@, b),
    {
        let n = self.end_lists@[b]@[k];
        assert(self.edge_ok(b, n));
        let a = n.begin as int;
        let w = n.word_id->0 as int;
        assert(entry_matches_at(self.lex@, self.text@, w, a, b));
        assert(reachable(self.lex@, self.text@, b));
    }

    /// Add one candidate edge spanning `[begin, end)` for dictionary word
    /// `word_id`, connecting it to the cheapest connected edge ending at
    /// `begin` (the earliest such edge on an exact tie). The new edge is
    /// connected exactly when some connected edge ends at `begin`.
    pub fn insert(
        &mut self,
        begin: usize,
        end: usize,
        left_id: u16,
        right_id: u16,
        cost: i32,
        word_id: u32,
        grammar: &Grammar,
    )
        requires
            old(self).wf(),
            !old(self).eos_done,
            begin < end <= old(self).text_len,
            grammar.wf(),
            grammar.rows == old(self).rows,
            grammar.cols == old(self).cols,
            left_id < grammar.cols,
            right_id < grammar.rows,
            -32768 <= cost <= 32767,
            entry_matches_at(
                old(self).lex@,
                old(self).text@,
                word_id as int,
                begin as int,
                end as int,
            ),
            is_char_start(old(self).text@, begin as int),
        ensures
            final(self).wf(),
            !final(self).eos_done,
            final(self).text_len == old(self).text_len,
            final(self).text == old(self).text,
            final(self).lex == old(self).lex,
            final(self).rows == old(self).rows,
            final(self).cols == old(self).cols,
            final(self).end_lists@.len() == old(self).end_lists@.len(),
            forall|i: int|
                0 <= i < final(self).end_lists@.len() && i != end ==> final(self).end_lists@[i] == old(
                    self,
                ).end_lists@[i],
            final(self).end_lists@[end as int]@.len() == old(self).end_lists@[end as int]@.len() + 1,
            forall|k: int|
                0 <= k < old(self).end_lists@[end as int]@.len() ==> final(self).end_lists@[end as int]@[k]
                    == old(self).end_lists@[end as int]@[k],
            ({
                let n = final(self).end_lists@[end as int]@.last();
                &&& n.begin == begin
                &&& n.end == end
                &&& n.word_id == Some(word_id)
                &&& (n.connected <==> has_connected(old(self).end_lists@[begin as int]@))
            }),
            final(self).end_lists@[end as int]@ == old(self).end_lists@[end as int]@.push(
                spec_new_node(
                    *grammar,
                    old(self).end_lists@[begin as int]@,
                    begin as int,
                    end as int,
                    left_id,
                    right_id,
                    cost,
                    Some(word_id),
                ),
            ),
            lists_view(final(self).end_lists@) == spec_insert(
                *grammar,
                lists_view(old(self).end_lists@),
                begin as int,
                end as int,
                left_id,
                right_id,
                cost,
                Some(word_id),
            ),
    {
        let best = Self::find_best_pred(
            &self.end_lists[begin],
            left_id,
            cost,
            grammar,
            Ghost(begin as int),
        );
        let node = match best {
            None => Node {
                begin,
                end,
                left_id,
                right_id,
                cost,
                word_id: Some(word_id),
                total_cost: 0,
                best_previous: None,
                connected: false,
            },
            Some(pair) => Node {
                begin,
                end,
                left_id,
                right_id,
                cost,
                word_id: Some(word_id),
                total_cost: pair.1,
                best_previous: Some(pair.0),
                connected: true,
            },
        };
        proof {
            if has_connected(self.end_lists@[begin as int]@) {
                if begin >= 1 {
                    let j = choose|j: int|
                        0 <= j < self.end_lists@[begin as int]@.len()
                            && self.end_lists@[begin as int]@[j].connected;
                    self.lemma_connected_reachable(begin as int, j);
                }
            }
        }
        proof {
            assert(node == spec_new_node(
                *grammar,
                old(self).end_lists@[begin as int]@,
                begin as int,
                end as int,
                left_id,
                right_id,
                cost,
                Some(word_id),
            ));
        }
        let lst = &mut self.end_lists[end];
        lst.push(node);
        proof {
            assert forall|e: int, k: int|
                1 <= e < self.end_lists@.len() && 0 <= k < self.end_lists@[e]@.len() implies self
                .edge_ok(e, #[trigger] self.end_lists@[e]@[k]) by {
                let n = self.end_lists@[e]@[k];
                if e == end && k == self.end_lists@[e]@.len() - 1 {
                    assert(self.edge_ok(e, n));
                } else {
                    assert(old(self).edge_ok(e, old(self).end_lists@[e]@[k]));
                    assert(n == old(self).end_lists@[e]@[k]);
                    assert(self.edge_ok(e, n));
                }
            }
            assert(lists_view(self.end_lists@) =~~= spec_insert(
                *grammar,
                lists_view(old(self).end_lists@),
                begin as int,
                end as int,
                left_id,
                right_id,
                cost,
                Some(word_id),
            ));
        }
    }

    /// Scan an end list for the cheapest connected predecessor of an edge
    /// with the given left id and cost; ties keep the earliest edge. `bound`
    /// bounds the total cost of every connected edge of the list.
    fn find_best_pred(
        list: &Vec<Node>,
        left_id: u16,
        cost: i32,
        grammar: &Grammar,
        Ghost(bound): Ghost<int>,
    ) -> (r: Option<(usize, i128)>)
        requires
            grammar.wf(),
            left_id < grammar.cols,
            -32768 <= cost <= 32767,
            0 <= bound <= usize::MAX,
            forall|j: int| 0 <= j < list@.len() ==> (#[trigger] list@[j]).right_id < grammar.rows,
            forall|j: int|
                0 <= j < list@.len() ==> ((#[trigger] list@[j]).connected ==> -65536 * bound
                    <= list@[j].total_cost <= 65536 * bound),
        ensures
            r is Some <==> has_connected(list@),
            r is Some ==> ({
                let (j, t) = r->0;
                &&& j < list@.len()
                &&& list@[j as int].connected
                &&& -65536 * (bound + 1) <= t <= 65536 * (bound + 1)
            }),
            ({
                let s = spec_best_pred(*grammar, list@, left_id, cost, list@.len() as int);
                &&& (r is Some <==> s is Some)
                &&& (r is Some ==> ({
                    let (j, t) = r->0;
                    (j as int, t as int) == s->0
                }))
            }),
    {
        let m = list.len();
        let mut best: Option<(usize, i128)> = None;
        let mut j: usize = 0;
        while j < m
            invariant
                j <= m,
                m == list@.len(),
                grammar.wf(),
                left_id < grammar.cols,
                -32768 <= cost <= 32767,
                0 <= bound <= usize::MAX,
                forall|i: int|
                    0 <= i < list@.len() ==> (#[trigger] list@[i]).right_id < grammar.rows,
                forall|i: int|
                    0 <= i < list@.len() ==> ((#[trigger] list@[i]).connected ==> -65536 * bound
                        <= list@[i].total_cost <= 65536 * bound),
                best is Some <==> has_connected(list@.take(j as int)),
                best is Some ==> ({
                    let (bj, bt) = best->0;
                    &&& bj < j
                    &&& list@[bj as int].connected
                    &&& -65536 * (bound + 1) <= bt <= 65536 * (bound + 1)
                }),
                ({
                    let s = spec_best_pred(*grammar, list@, left_id, cost, j as int);
                    &&& (best is Some <==> s is Some)
                    &&& (best is Some ==> ({
                        let (bj, bt) = best->0;
                        (bj as int, bt as int) == s->0
                    }))
                }),
            decreases m - j,
        {
            let pred = &list[j];
            if pred.connected {
                let cc = grammar.connect_cost(pred.right_id, left_id);
                let t: i128 = pred.total_cost + (cc as i128) + (cost as i128);
                match best {
                    None => {
                        best = Some((j, t));
                    },
                    Some(pair) => {
                        if t < pair.1 {
                            best = Some((j, t));
                        }
                    },
                }
                proof {
                    assert(list@.take(j + 1)[j as int].connected);
                }
            } else {
                proof {
                    assert(has_connected(list@.take(j + 1)) == has_connected(list@.take(j as int)))
                        by {
                        if has_connected(list@.take(j as int)) {
                            let i = choose|i: int|
                                0 <= i < j && #[trigger] list@.take(j as int)[i].connected;
                            assert(list@.take(j + 1)[i].connected);
                        }
                        if has_connected(list@.take(j + 1)) {
                            let i = choose|i: int|
                                0 <= i < j + 1 && #[trigger] list@.take(j + 1)[i].connected;
                            assert(i != j);
                            assert(list@.take(j as int)[i].connected);
                        }
                    }
                }
            }
            j += 1;
        }
        proof {
            assert(list@.take(m as int) =~= list@);
        }
        best
    }

    /// The view of an extracted path as the contracts see it: each edge as
    /// `(word id, begin, end)`.
    pub open spec fn path_view(p: Seq<(u32, usize, usize)>) -> Seq<(int, int, int)> {
        p.map_values(|t: (u32, usize, usize)| (t.0 as int, t.1 as int, t.2 as int))
    }

    /// Add the synthetic end edge spanning `[text_len, text_len + 1)`. It
    /// is connected exactly when some connected edge ends at `text_len`,
    /// that is, when some chain of word edges covers the whole text.
    pub fn connect_eos(&mut self, grammar: &Grammar)
        requires
            old(self).wf(),
            !old(self).eos_done,
            grammar.wf(),
            grammar.rows == old(self).rows,
            grammar.cols == old(self).cols,
        ensures
            final(self).wf(),
            final(self).eos_done,
            final(self).text_len == old(self).text_len,
            final(self).text == old(self).text,
            final(self).lex == old(self).lex,
            final(self).eos_connected() <==> has_connected(
                old(self).end_lists@[old(self).text_len as int]@,
            ),
            final(self).eos_connected() ==> reachable(
                old(self).lex@,
                old(self).text@,
                old(self).text_len as int,
            ),
            lists_view(final(self).end_lists@) == spec_insert(
                *grammar,
                lists_view(old(self).end_lists@),
                old(self).text_len as int,
                old(self).text_len + 1,
                0,
                0,
                0,
                None,
            ),
    {
        let tl = self.text_len;
        let nlists = self.end_lists.len();
        assert(tl + 2 == nlists);
        let best = Self::find_best_pred(
            &self.end_lists[tl],
            0u16,
            0i32,
            grammar,
            Ghost(tl as int),
        );
        let node = match best {
            None => Node {
                begin: tl,
                end: tl + 1,
                left_id: 0,
                right_id: 0,
                cost: 0,
                word_id: None,
                total_cost: 0,
                best_previous: None,
                connected: false,
            },
            Some(pair) => Node {
                begin: tl,
                end: tl + 1,
                left_id: 0,
                right_id: 0,
                cost: 0,
                word_id: None,
                total_cost: pair.1,
                best_previous: Some(pair.0),
                connected: true,
            },
        };
        proof {
            if has_connected(self.end_lists@[tl as int]@) && tl >= 1 {
                let j = choose|j: int|
                    0 <= j < self.end_lists@[tl as int]@.len() && #[trigger] self.end_lists@[tl as int]@[j].connected;
                self.lemma_connected_reachable(tl as int, j);
            }
        }
        proof {
            assert(node == spec_new_node(
                *grammar,
                old(self).end_lists@[tl as int]@,
                tl as int,
                tl + 1,
                0,
                0,
                0,
                None,
            ));
        }
        let lst = &mut self.end_lists[tl + 1];
        lst.push(node);
        self.eos_done = true;
        proof {
            assert forall|e: int, k: int|
                1 <= e < self.end_lists@.len() && 0 <= k < self.end_lists@[e]@.len() implies self
                .edge_ok(e, #[trigger] self.end_lists@[e]@[k]) by {
                let n = self.end_lists@[e]@[k];
                if e == self.text_len + 1 {
                    assert(n == node);
                    assert(self.edge_ok(e, n));
                } else {
                    assert(old(self).edge_ok(e, old(self).end_lists@[e]@[k]));
                    assert(n == old(self).end_lists@[e]@[k]);
                    assert(self.edge_ok(e, n));
                }
            }
            assert(lists_view(self.end_lists@) =~~= spec_insert(
                *grammar,
                lists_view(old(self).end_lists@),
                tl as int,
                tl + 1,
                0,
                0,
                0,
                None,
            ));
        }
    }

    /// Walk back from the synthetic end edge along the recorded best
    /// predecessors and return the word edges of the least-cost chain in
    /// text order, each as `(word id, begin, end)`. Fails exactly when no
    /// chain of word edges covers the whole text.
    pub fn get_best_path(&self) -> (r: Result<Vec<(u32, usize, usize)>, EngineError>)
        requires
            self.wf(),
            self.eos_done,
        ensures
            r is Ok <==> self.eos_connected(),
            r is Err ==> r == Err::<Vec<(u32, usize, usize)>, EngineError>(EngineError::Path),
            r is Ok ==> valid_word_path(self.lex@, self.text@, Self::path_view(r->Ok_0@)),
            r is Ok ==> Self::path_view(r->Ok_0@) == spec_backtrack(
                lists_view(self.end_lists@),
                self.text_len as int,
                self.end_lists@[self.text_len + 1]@[0].best_previous->0 as int,
            ),
    {
        let tl = self.text_len;
        let eos = &self.end_lists[tl + 1][0];
        if !eos.connected {
            return Err(EngineError::Path);
        }
        proof {
            assert(self.edge_ok(tl + 1, self.end_lists@[tl as int + 1]@[0]));
        }
        let mut out: Vec<(u32, usize, usize)> = Vec::new();
        let mut cur_list: usize = eos.begin;
        let mut cur_idx: usize = eos.best_previous.unwrap();
        let ghost idx0: int = cur_idx as int;
        while cur_list > 0
            invariant
                self.wf(),
                self.eos_done,
                self.eos_connected(),
                tl == self.text_len,
                cur_list <= tl,
                cur_idx < self.end_lists@[cur_list as int]@.len(),
                self.end_lists@[cur_list as int]@[cur_idx as int].connected,
                chain_ok(
                    self.lex@,
                    self.text@,
                    Self::path_view(out@),
                    cur_list as int,
                    tl as int,
                ),
                spec_backtrack(lists_view(self.end_lists@), tl as int, idx0) == spec_backtrack(
                    lists_view(self.end_lists@),
                    cur_list as int,
                    cur_idx as int,
                ) + Self::path_view(out@),
            decreases cur_list,
        {
            let node = &self.end_lists[cur_list][cur_idx];
            proof {
                assert(self.edge_ok(
                    cur_list as int,
                    self.end_lists@[cur_list as int]@[cur_idx as int],
                ));
            }
            let w = match node.word_id {
                Some(w) => w,
                None => {
                    return Err(EngineError::MissingWordId);
                },
            };
            let ghost prevp = Self::path_view(out@);
            let ghost t = (w as int, node.begin as int, node.end as int);
            out.insert(0, (w, node.begin, node.end));
            proof {
                let newp = Self::path_view(out@);
                assert(newp =~= seq![t] + prevp);
                assert forall|i: int| 0 <= i < newp.len() - 1 implies (#[trigger] newp[i]).2
                    == newp[i + 1].1 by {
                    if i == 0 {
                        if prevp.len() > 0 {
                            assert(newp[1] == prevp[0]);
                        }
                    } else {
                        assert(newp[i] == prevp[i - 1]);
                        assert(newp[i + 1] == prevp[i]);
                        assert((prevp[i - 1]).2 == prevp[i].1);
                    }
                }
                assert forall|i: int| 0 <= i < newp.len() implies ({
                    let u = #[trigger] newp[i];
                    &&& entry_matches_at(self.lex@, self.text@, u.0, u.1, u.2)
                    &&& is_char_start(self.text@, u.1)
                    &&& u.1 < u.2
                }) by {
                    if i > 0 {
                        assert(newp[i] == prevp[i - 1]);
                    }
                }
                if prevp.len() == 0 {
                    assert(newp[newp.len() - 1] == t);
                } else {
                    assert(newp[newp.len() - 1] == prevp[prevp.len() - 1]);
                }
                assert(chain_ok(self.lex@, self.text@, newp, node.begin as int, tl as int));
                assert(spec_backtrack(lists_view(self.end_lists@), cur_list as int, cur_idx as int)
                    =~= spec_backtrack(
                    lists_view(self.end_lists@),
                    node.begin as int,
                    node.best_previous->0 as int,
                ).push(t));
                assert(spec_backtrack(
                    lists_view(self.end_lists@),
                    node.begin as int,
                    node.best_previous->0 as int,
                ).push(t) + prevp =~= spec_backtrack(
                    lists_view(self.end_lists@),
                    node.begin as int,
                    node.best_previous->0 as int,
                ) + newp);
            }
            cur_idx = node.best_previous.unwrap();
            cur_list = node.begin;
        }
        proof {
            assert(spec_backtrack(lists_view(self.end_lists@), 0, cur_idx as int)
                =~= Seq::<(int, int, int)>::empty());
            assert(Seq::<(int, int, int)>::empty() + Self::path_view(out@) =~= Self::path_view(
                out@,
            ));
        }
        Ok(out)
    }

    /// An empty lattice over a text of `text_len` bytes: the begin edge
    /// alone, every other end list empty.
    pub fn new(
        text_len: usize,
        rows: u16,
        cols: u16,
        Ghost(text): Ghost<Seq<u8>>,
        Ghost(lex): Ghost<Seq<EntryV>>,
    ) -> (r: Lattice)
        requires
            rows >= 1,
            cols >= 1,
            text.len() == text_len,
            text_len + 2 <= usize::MAX,
        ensures
            r.wf(),
            !r.eos_done,
            r.text_len == text_len,
            r.text@ == text,
            r.lex@ == lex,
            r.rows == rows,
            r.cols == cols,
            forall|e: int| 1 <= e < r.end_lists@.len() ==> (#[trigger] r.end_lists@[e]@).len() == 0,
            lists_view(r.end_lists@) == spec_initial_lists(text_len as int),
    {
        let bos = Node {
            begin: 0,
            end: 0,
            left_id: 0,
            right_id: 0,
            cost: 0,
            word_id: None,
            total_cost: 0,
            best_previous: None,
            connected: true,
        };
        let mut end_lists: Vec<Vec<Node>> = Vec::new();
        let mut first: Vec<Node> = Vec::new();
        first.push(bos);
        proof {
            assert(first@ =~= seq![spec_bos()]);
        }
        end_lists.push(first);
        let total = text_len + 2;
        while end_lists.len() < total
            invariant
                1 <= end_lists@.len() <= total,
                end_lists@[0]@.len() == 1,
                end_lists@[0]@ == seq![spec_bos()],
                Self::bos_ok(end_lists@[0]@[0]),
                forall|e: int|
                    1 <= e < end_lists@.len() ==> (#[trigger] end_lists@[e]@).len() == 0,
            decreases total - end_lists@.len(),
        {
            end_lists.push(Vec::new());
        }
        proof {
            assert(lists_view(end_lists@) =~~= spec_initial_lists(text_len as int));
        }
        Lattice {
            text_len,
            end_lists,
            eos_done: false,
            rows,
            cols,
            text: Ghost(text),
            lex: Ghost(lex),
        }
    }
}

} // verus!
