//! Maps Latin-alphabet phonetic spellings of Quranic Arabic into exact,
//! fully diacritized Quranic text, supports exact substring search over
//! the corpus, and offers an approximate inverse transliteration.
//!
//! The core is an immutable index: a suffix tree over every aya of the
//! corpus with per-suffix occurrence records, walked by a backtracking
//! matcher that resolves ambiguous Latin input into every valid Arabic
//! reconstruction. Construction happens once; every query afterwards is a
//! pure read.

use vstd::prelude::*;
use vstd::multiset::Multiset;

pub mod corpus;
pub mod decoder;
pub mod encoder;
pub mod normalization;
pub mod suffix_tree;
pub mod transliteration;

use corpus::{spec_sura, spec_aya, sura_of_row, aya_of_row};
use encoder::{Cand, cand_view, cands_view, s_node, enc_node};
use normalization::{spec_normalize, spec_normalize_muqottoah, normalize, normalize_muqottoah};
use suffix_tree::{SuffixTree, Node, records_below, all_records, vcount, ecount, occurrences_in};

verus! {

/// Relies on std's `str::chars`: yields exactly the characters of the
/// string, in order.
#[verifier::external_body]
fn str_chars(s: &str) -> (r: Vec<char>)
    ensures
        r@ == s@,
{
    s.chars().collect()
}

/// Relies on std's `String: FromIterator<char>`: collecting characters
/// builds the string holding exactly those characters, in order.
#[verifier::external_body]
fn chars_string(v: &Vec<char>) -> (r: String)
    ensures
        r@ == v@,
{
    v.iter().collect()
}

/// The model: the index over the corpus, holding the suffix tree and the
/// per-row (sura number, aya number, text) attributes.
pub struct Quranize {
    pub tree: SuffixTree,
    pub saqs: Vec<(u8, u16, String)>,
}

/// Sum of the lengths of the first `k` texts.
pub open spec fn spec_total_len(ts: Seq<String>, k: int) -> int
    decreases k,
{
    if k <= 0 {
        0
    } else {
        spec_total_len(ts, k - 1) + if k <= ts.len() {
            ts[k - 1]@.len() as int
        } else {
            0
        }
    }
}

/// Does `t` contain a space?
pub open spec fn spec_has_space(t: Seq<char>) -> bool {
    exists|i: int| 0 <= i < t.len() && t[i] == ' '
}

/// Everything after the first space of `t` (empty if `t` has no space).
pub open spec fn spec_after_space(t: Seq<char>) -> Seq<char>
    decreases t.len(),
{
    if t.len() == 0 {
        t
    } else if t[0] == ' ' {
        t.drop_first()
    } else {
        spec_after_space(t.drop_first())
    }
}

/// Drops the first `k` space-separated words of `t`; with fewer words,
/// what follows the last space remains.
pub open spec fn spec_skip_words(t: Seq<char>, k: int) -> Seq<char>
    decreases k,
{
    if k <= 0 {
        t
    } else if spec_has_space(t) {
        spec_skip_words(spec_after_space(t), k - 1)
    } else {
        t
    }
}

/// The text of row `i` as indexed: the first aya of every sura except the
/// first and the ninth has its four-word opening phrase stripped.
pub open spec fn spec_row_text(t: Seq<char>, i: int) -> Seq<char> {
    if spec_aya(i) == 1 && spec_sura(i) != 1 && spec_sura(i) != 9 {
        spec_skip_words(t, 4)
    } else {
        t
    }
}

proof fn lemma_after_space_len(t: Seq<char>)
    ensures
        spec_after_space(t).len() <= t.len(),
    decreases t.len(),
{
    if t.len() > 0 && t[0] != ' ' {
        lemma_after_space_len(t.drop_first());
    }
}

proof fn lemma_skip_words_len(t: Seq<char>, k: int)
    ensures
        spec_skip_words(t, k).len() <= t.len(),
    decreases k,
{
    if k > 0 && spec_has_space(t) {
        lemma_after_space_len(t);
        lemma_skip_words_len(spec_after_space(t), k - 1);
    }
}

proof fn lemma_after_space_at(t: Seq<char>, p: int)
    requires
        0 <= p < t.len(),
        t[p] == ' ',
        forall|j: int| 0 <= j < p ==> t[j] != ' ',
    ensures
        spec_after_space(t) == t.skip(p + 1),
    decreases p,
{
    if p == 0 {
        assert(t.drop_first() =~= t.skip(1));
    } else {
        lemma_after_space_at(t.drop_first(), p - 1);
        assert(t.drop_first().skip(p) =~= t.skip(p + 1));
    }
}

/// Everything after the first space, executable form; the input is
/// returned whole when it has no space.
fn after_first_space(t: &Vec<char>) -> (r: Vec<char>)
    ensures
        spec_has_space(t@) ==> r@ == spec_after_space(t@),
        !spec_has_space(t@) ==> r@ == t@,
{
    let len = t.len();
    let mut p: usize = 0;
    while p < len
        invariant
            0 <= p <= len,
            len == t@.len(),
            forall|j: int| 0 <= j < p ==> t@[j] != ' ',
        decreases len - p,
    {
        if t[p] == ' ' {
            proof {
                lemma_after_space_at(t@, p as int);
            }
            return suffix_tree::copy_range(t, p + 1, len);
        }
        p = p + 1;
    }
    let r = suffix_tree::copy_range(t, 0, len);
    proof {
        assert(r@ =~= t@);
    }
    r
}

/// Strips the leading opening phrase: the first four space-separated
/// words are dropped.
fn trim_basmalah(t: &Vec<char>) -> (r: Vec<char>)
    ensures
        r@ == spec_skip_words(t@, 4),
{
    let mut cur = suffix_tree::copy_range(t, 0, t.len());
    proof {
        assert(cur@ =~= t@);
    }
    let mut k: usize = 0;
    while k < 4
        invariant
            0 <= k <= 4,
            spec_skip_words(t@, 4) == spec_skip_words(cur@, 4 - k),
        decreases 4 - k,
    {
        let next = after_first_space(&cur);
        proof {
            if !spec_has_space(cur@) {
                assert(spec_skip_words(cur@, 4 - k) == cur@);
                assert(spec_skip_words(next@, 3 - k) == next@);
            }
        }
        cur = next;
        k = k + 1;
    }
    cur
}

impl Quranize {
    /// The indexed aya texts, row by row.
    pub open spec fn texts(self) -> Seq<Seq<char>> {
        self.saqs@.map_values(|t: (u8, u16, String)| t.2@)
    }

    /// Every position at which `q` occurs in the texts: the records
    /// `(row, offset)` with `q` a prefix of `ts[row]` at `offset`.
    pub open spec fn corpus_occurrences(ts: Seq<Seq<char>>, q: Seq<char>) -> Multiset<
        (usize, usize),
    >
        decreases ts.len(),
    {
        if ts.len() == 0 {
            Multiset::empty()
        } else {
            Self::corpus_occurrences(ts.drop_last(), q).add(
                occurrences_in((ts.len() - 1) as usize, ts.last(), q),
            )
        }
    }

    /// The index invariant: the tree is well formed and its record model
    /// is exactly the occurrence multiset of the stored texts, and every
    /// row carries its canonical sura and aya numbers.
    pub open spec fn inv(self) -> bool {
        &&& self.tree.wf()
        &&& self.saqs@.len() <= 6236
        &&& forall|q: Seq<char>| #[trigger] records_below(self.tree.root, q)
            == Self::corpus_occurrences(self.texts(), q)
        &&& forall|i: int|
            0 <= i < self.saqs@.len() ==> (#[trigger] self.saqs@[i]).0 as int == spec_sura(i)
                && self.saqs@[i].1 as int == spec_aya(i)
    }

    /// Builds the index from the aya texts in canonical order; at most
    /// the canonical number of rows is indexed. Every stored row carries
    /// its sura and aya number from the fixed boundary table, with the
    /// opening phrase stripped where the corpus convention asks for it.
    pub fn new(ayas: &Vec<String>) -> (q: Quranize)
        ensures
            q.inv(),
            q.saqs@.len() <= ayas@.len(),
            forall|i: int|
                0 <= i < q.saqs@.len() ==> (#[trigger] q.saqs@[i]).2@ == spec_row_text(
                    ayas@[i]@,
                    i,
                ),
            spec_total_len(ayas@, if ayas@.len() < 6236 {
                ayas@.len() as int
            } else {
                6236
            }) <= usize::MAX ==> q.saqs@.len() == if ayas@.len() < 6236 {
                ayas@.len() as int
            } else {
                6236
            },
    {
        let mut tree = SuffixTree::new();
        let mut saqs: Vec<(u8, u16, String)> = Vec::new();
        let total = ayas.len();
        let limit = if total < 6236 {
            total
        } else {
            6236
        };
        let mut row: usize = 0;
        let mut stop = false;
        proof {
            assert(saqs@.map_values(|t: (u8, u16, String)| t.2@) =~= Seq::<Seq<char>>::empty());
        }
        while row < limit && !stop
            invariant
                0 <= row <= limit,
                limit <= ayas@.len(),
                limit <= 6236,
                limit == if ayas@.len() < 6236 {
                    ayas@.len() as int
                } else {
                    6236int
                },
                tree.wf(),
                saqs@.len() == row,
                forall|q: Seq<char>| #[trigger] records_below(tree.root, q)
                    == Self::corpus_occurrences(
                    saqs@.map_values(|t: (u8, u16, String)| t.2@),
                    q,
                ),
                forall|i: int|
                    0 <= i < row ==> (#[trigger] saqs@[i]).0 as int == spec_sura(i) && saqs@[i].1
                        as int == spec_aya(i) && saqs@[i].2@ == spec_row_text(ayas@[i]@, i),
                all_records(tree.root).len() <= spec_total_len(ayas@, row as int),
                stop ==> spec_total_len(ayas@, limit as int) > usize::MAX,
            decreases limit - row + if stop {
                0int
            } else {
                1int
            },
        {
            let sura = sura_of_row(row);
            let aya = aya_of_row(row);
            let line = str_chars(&ayas[row]);
            let text = if aya == 1 && sura != 1 && sura != 9 {
                trim_basmalah(&line)
            } else {
                line
            };
            proof {
                lemma_skip_words_len(ayas@[row as int]@, 4);
                assert(text@.len() <= ayas@[row as int]@.len());
                assert(spec_total_len(ayas@, row + 1) == spec_total_len(ayas@, row as int)
                    + ayas@[row as int]@.len());
            }
            if text.len() <= usize::MAX - tree.root.count {
                proof {
                    suffix_tree::lemma_wf_parts(tree.root);
                    assert(tree.root.count == all_records(tree.root).len());
                }
                let ghost pre_texts = saqs@.map_values(|t: (u8, u16, String)| t.2@);
                tree.construct(row, &text);
                let stext = chars_string(&text);
                saqs.push((sura, aya, stext));
                proof {
                    let post_texts = saqs@.map_values(|t: (u8, u16, String)| t.2@);
                    assert(post_texts.drop_last() =~= pre_texts);
                    assert(post_texts.last() == text@);
                    assert forall|q: Seq<char>| #[trigger] records_below(tree.root, q)
                        == Self::corpus_occurrences(post_texts, q) by {
                        assert(Self::corpus_occurrences(post_texts, q)
                            == Self::corpus_occurrences(pre_texts, q).add(
                            occurrences_in(row, text@, q),
                        ));
                    }
                }
                row = row + 1;
            } else {
                proof {
                    lemma_total_len_mono(ayas@, row + 1, limit as int);
                }
                stop = true;
            }
        }
        let q = Quranize { tree, saqs };
        q
    }


    /// Transliterates `s` into every valid Quranic rendering: each result
    /// carries the Arabic text, the number of places it occurs in the
    /// corpus, and one explanation entry per Arabic character. No two
    /// results share the same text; ordinary readings come before
    /// mysterious-letters readings.
    pub fn encode(&self, s: &str) -> (r: Vec<(String, usize, Vec<String>)>)
        requires
            self.inv(),
        ensures
            res_matches(r@, spec_encode(self.tree.root, s@)),
            forall|i: int, j: int| 0 <= i < j < r@.len() ==> (#[trigger] r@[i]).0@ != (
            #[trigger] r@[j]).0@,
    {
        let chars = str_chars(s);
        let n1 = normalize(&chars);
        let n2 = normalize_muqottoah(&chars);
        let mut all: Vec<Cand> = if n1.len() > 0 {
            let r1 = enc_node(&self.tree.root, &n1, 0, None, false);
            proof {
                assert(n1@.skip(0) =~= n1@);
            }
            r1
        } else {
            Vec::new()
        };
        let ghost v1 = cands_view(all@);
        let mut m2: Vec<Cand> = if n2.len() > 0 {
            let r2 = enc_node(&self.tree.root, &n2, 0, None, true);
            proof {
                assert(n2@.skip(0) =~= n2@);
            }
            r2
        } else {
            Vec::new()
        };
        let ghost v2 = cands_view(m2@);
        all.append(&mut m2);
        proof {
            assert(cands_view(all@) =~= v1 + v2);
        }
        let rev = rev_all(all);
        let ded = dedup_cands(rev);
        let ghost dv = cands_view(ded@);
        proof {
            lemma_dedup_props(s_rev_all(v1 + v2));
        }
        let mut out: Vec<(String, usize, Vec<String>)> = Vec::new();
        let mut i: usize = 0;
        let dlen = ded.len();
        while i < dlen
            invariant
                0 <= i <= dlen,
                dlen == ded@.len(),
                dv == cands_view(ded@),
                out@.len() == i,
                forall|k: int|
                    0 <= k < i ==> (#[trigger] out@[k]).0@ == dv[k].0 && out@[k].1 == dv[k].1
                        && out@[k].2.deep_view() == dv[k].2,
            decreases dlen - i,
        {
            let e = &ded[i];
            let text = chars_string(&e.text);
            let mut expl: Vec<String> = Vec::new();
            let elen = e.expl.len();
            let mut j: usize = 0;
            while j < elen
                invariant
                    0 <= j <= elen,
                    i < ded@.len(),
                    e == &ded@[i as int],
                    elen == e.expl@.len(),
                    expl@.len() == j,
                    forall|w: int| 0 <= w < j ==> (#[trigger] expl@[w])@ == e.expl@[w]@,
                decreases elen - j,
            {
                expl.push(chars_string(&e.expl[j]));
                j = j + 1;
            }
            proof {
                assert(expl.deep_view() =~~= ded@[i as int].expl.deep_view());
            }
            out.push((text, e.count, expl));
            i = i + 1;
        }
        proof {
            assert(res_matches(out@, spec_encode(self.tree.root, s@)));
            assert forall|i2: int, j2: int|
                0 <= i2 < j2 < out@.len() implies (#[trigger] out@[i2]).0@ != (
            #[trigger] out@[j2]).0@ by {
                assert(dv[i2].0 != dv[j2].0);
            }
        }
        out
    }

    /// Every position at which `s` occurs as a substring anywhere in the
    /// corpus, as `(row, offset)` pairs; the number of returned pairs is
    /// the exact number of occurrences. The empty pattern yields nothing.
    pub fn find(&self, s: &str) -> (r: Vec<(usize, usize)>)
        requires
            self.inv(),
        ensures
            s@.len() == 0 ==> r@.len() == 0,
            s@.len() > 0 ==> r@.to_multiset() == Self::corpus_occurrences(self.texts(), s@),
    {
        let p = str_chars(s);
        self.tree.find(&p)
    }

    /// The sura number of row `i`; rows outside the corpus have none.
    pub fn get_sura(&self, i: usize) -> (r: Option<u8>)
        requires
            self.inv(),
        ensures
            r matches Some(s) <==> i < self.saqs@.len(),
            i < self.saqs@.len() ==> r == Some((spec_sura(i as int) as u8)),
    {
        if i < self.saqs.len() {
            Some(self.saqs[i].0)
        } else {
            None
        }
    }

    /// The aya number of row `i`; rows outside the corpus have none.
    pub fn get_aya(&self, i: usize) -> (r: Option<u16>)
        requires
            self.inv(),
        ensures
            r matches Some(a) <==> i < self.saqs@.len(),
            i < self.saqs@.len() ==> r == Some((spec_aya(i as int) as u16)),
    {
        if i < self.saqs.len() {
            Some(self.saqs[i].1)
        } else {
            None
        }
    }

    /// The text of row `i`; rows outside the corpus have none.
    pub fn get_quran(&self, i: usize) -> (r: Option<String>)
        requires
            self.inv(),
        ensures
            r matches Some(t) <==> i < self.saqs@.len(),
            i < self.saqs@.len() ==> (r matches Some(t) && t@ == self.texts()[i as int]),
    {
        if i < self.saqs.len() {
            let r = self.saqs[i].2.clone();
            proof {
                assert(self.texts()[i as int] == self.saqs@[i as int].2@);
            }
            Some(r)
        } else {
            None
        }
    }

    /// The best-effort Latin approximation of Arabic text `s`, as a
    /// single deterministic rendering: each character's preferred
    /// spelling, a spacing cleanup, and the consonant-doubling expansion.
    /// It is a pure function of `s` and is not required to invert
    /// `encode`.
    pub fn decode(&self, s: &str) -> (r: Vec<String>)
        ensures
            r@.len() == 1,
            r@[0]@ == decoder::spec_decode(s@),
    {
        let chars = str_chars(s);
        let d = decoder::decode_chars(&chars);
        let mut r: Vec<String> = Vec::new();
        r.push(chars_string(&d));
        r
    }

    /// Number of nodes in the suffix tree.
    pub fn vertex_count(&self) -> (r: u128)
        requires
            self.inv(),
        ensures
            r == vcount(self.tree.root),
    {
        self.tree.vertex_count()
    }

    /// Number of edges in the suffix tree: always one less than the
    /// number of nodes.
    pub fn edge_count(&self) -> (r: u128)
        requires
            self.inv(),
        ensures
            r == ecount(self.tree.root),
            r + 1 == vcount(self.tree.root),
    {
        self.tree.edge_count()
    }
}


/// Every reconstruction with its text and explanations put in reading
/// order.
pub open spec fn s_rev_all(rs: Seq<(Seq<char>, usize, Seq<Seq<char>>)>) -> Seq<
    (Seq<char>, usize, Seq<Seq<char>>),
> {
    rs.map_values(
        |r: (Seq<char>, usize, Seq<Seq<char>>)| (r.0.reverse(), r.1, r.2.reverse()),
    )
}

/// Keeps the first reconstruction of each distinct text, in order.
pub open spec fn s_dedup(rs: Seq<(Seq<char>, usize, Seq<Seq<char>>)>) -> Seq<
    (Seq<char>, usize, Seq<Seq<char>>),
>
    decreases rs.len(),
{
    if rs.len() == 0 {
        Seq::empty()
    } else {
        let prior = s_dedup(rs.drop_last());
        if exists|j: int| 0 <= j < rs.len() - 1 && rs[j].0 == rs.last().0 {
            prior
        } else {
            prior.push(rs.last())
        }
    }
}

/// Deduplication keeps exactly one entry per text, and invents none.
pub proof fn lemma_dedup_props(rs: Seq<(Seq<char>, usize, Seq<Seq<char>>)>)
    ensures
        forall|i: int, j: int|
            0 <= i < j < s_dedup(rs).len() ==> s_dedup(rs)[i].0 != s_dedup(rs)[j].0,
        forall|i: int|
            0 <= i < s_dedup(rs).len() ==> exists|j: int|
                0 <= j < rs.len() && rs[j].0 == (#[trigger] s_dedup(rs)[i]).0,
        forall|i: int|
            0 <= i < rs.len() ==> exists|j: int|
                0 <= j < s_dedup(rs).len() && s_dedup(rs)[j].0 == (#[trigger] rs[i]).0,
    decreases rs.len(),
{
    if rs.len() > 0 {
        lemma_dedup_props(rs.drop_last());
        let d = s_dedup(rs);
        let prior = s_dedup(rs.drop_last());
        assert forall|i: int| 0 <= i < d.len() implies exists|j: int|
            0 <= j < rs.len() && rs[j].0 == (#[trigger] d[i]).0 by {
            if i < prior.len() {
                let j = choose|j: int|
                    0 <= j < rs.drop_last().len() && rs.drop_last()[j].0 == (#[trigger] prior[i]).0;
                assert(rs[j].0 == d[i].0);
            } else {
                assert(rs[rs.len() - 1].0 == d[i].0);
            }
        }
        assert forall|i: int| 0 <= i < rs.len() implies exists|j: int|
            0 <= j < d.len() && d[j].0 == (#[trigger] rs[i]).0 by {
            if i < rs.len() - 1 {
                assert(rs.drop_last()[i].0 == rs[i].0);
                let j = choose|j: int|
                    0 <= j < prior.len() && prior[j].0 == (#[trigger] rs.drop_last()[i]).0;
                assert(d[j].0 == rs[i].0);
            } else {
                if exists|j: int| 0 <= j < rs.len() - 1 && rs[j].0 == rs.last().0 {
                    let j0 = choose|j: int| 0 <= j < rs.len() - 1 && rs[j].0 == rs.last().0;
                    assert(rs.drop_last()[j0].0 == rs.last().0);
                    let j = choose|j: int|
                        0 <= j < prior.len() && prior[j].0 == (#[trigger] rs.drop_last()[j0]).0;
                    assert(d[j].0 == rs[i].0);
                } else {
                    assert(d[d.len() - 1].0 == rs[i].0);
                }
            }
        }
        assert forall|i: int, j: int| 0 <= i < j < d.len() implies d[i].0 != d[j].0 by {
            if d.len() > prior.len() && j == d.len() - 1 {
                if d[i].0 == d[j].0 {
                    let w = choose|w: int|
                        0 <= w < rs.drop_last().len() && rs.drop_last()[w].0 == (
                        #[trigger] prior[i]).0;
                    assert(rs[w].0 == rs.last().0);
                    assert(false);
                }
            } else {
                assert(prior[i].0 != prior[j].0);
            }
        }
    }
}

/// The whole encoding, as a function of the input text and the tree:
/// ordinary readings first, then mysterious-letters readings, each built
/// from the canonical form of the input, reversed into reading order and
/// deduplicated by text with the earlier entry kept.
pub open spec fn spec_encode(root: Node, s: Seq<char>) -> Seq<
    (Seq<char>, usize, Seq<Seq<char>>),
> {
    let n1 = spec_normalize(s);
    let n2 = spec_normalize_muqottoah(s);
    let r1 = if n1.len() == 0 {
        Seq::empty()
    } else {
        s_node(root, n1, None, false)
    };
    let r2 = if n2.len() == 0 {
        Seq::empty()
    } else {
        s_node(root, n2, None, true)
    };
    s_dedup(s_rev_all(r1 + r2))
}

/// The encoding is determined by the canonical forms alone: two inputs
/// that canonicalize alike encode alike.
pub proof fn lemma_encode_determined(root: Node, a: Seq<char>, b: Seq<char>)
    requires
        spec_normalize(a) == spec_normalize(b),
        spec_normalize_muqottoah(a) == spec_normalize_muqottoah(b),
    ensures
        spec_encode(root, a) == spec_encode(root, b),
{
}

/// Does the returned list realize the specified reconstructions?
pub open spec fn res_matches(
    r: Seq<(String, usize, Vec<String>)>,
    sc: Seq<(Seq<char>, usize, Seq<Seq<char>>)>,
) -> bool {
    &&& r.len() == sc.len()
    &&& forall|i: int|
        0 <= i < r.len() ==> (#[trigger] r[i]).0@ == sc[i].0 && r[i].1 == sc[i].1
            && r[i].2.deep_view() == sc[i].2
}

fn rev_chars(v: &Vec<char>) -> (r: Vec<char>)
    ensures
        r@ == v@.reverse(),
{
    let len = v.len();
    let mut r: Vec<char> = Vec::new();
    let mut i: usize = 0;
    while i < len
        invariant
            0 <= i <= len,
            len == v@.len(),
            r@.len() == i,
            forall|j: int| 0 <= j < i ==> #[trigger] r@[j] == v@[len - 1 - j],
        decreases len - i,
    {
        r.push(v[len - 1 - i]);
        i = i + 1;
    }
    proof {
        assert(r@ =~= v@.reverse());
    }
    r
}

fn rev_expl(v: &Vec<Vec<char>>) -> (r: Vec<Vec<char>>)
    ensures
        r.deep_view() == v.deep_view().reverse(),
{
    let len = v.len();
    let mut r: Vec<Vec<char>> = Vec::new();
    let mut i: usize = 0;
    while i < len
        invariant
            0 <= i <= len,
            len == v@.len(),
            r@.len() == i,
            forall|j: int| 0 <= j < i ==> #[trigger] r@[j]@ == v@[len - 1 - j]@,
        decreases len - i,
    {
        let piece = suffix_tree::copy_range(&v[len - 1 - i], 0, v[len - 1 - i].len());
        proof {
            assert(piece@ =~= v@[(len - 1 - i) as int]@);
        }
        r.push(piece);
        i = i + 1;
    }
    proof {
        assert(r.deep_view() =~~= v.deep_view().reverse());
    }
    r
}

fn rev_all(rs: Vec<Cand>) -> (r: Vec<Cand>)
    ensures
        cands_view(r@) == s_rev_all(cands_view(rs@)),
{
    let len = rs.len();
    let mut r: Vec<Cand> = Vec::new();
    let mut i: usize = 0;
    while i < len
        invariant
            0 <= i <= len,
            len == rs@.len(),
            r@.len() == i,
            forall|j: int|
                0 <= j < i ==> #[trigger] cand_view(r@[j]) == (
                    cand_view(rs@[j]).0.reverse(),
                    cand_view(rs@[j]).1,
                    cand_view(rs@[j]).2.reverse(),
                ),
        decreases len - i,
    {
        let e = &rs[i];
        let text = rev_chars(&e.text);
        let expl = rev_expl(&e.expl);
        r.push(Cand { text, count: e.count, expl });
        i = i + 1;
    }
    proof {
        assert(cands_view(r@) =~~= s_rev_all(cands_view(rs@)));
    }
    r
}

fn dedup_cands(rs: Vec<Cand>) -> (r: Vec<Cand>)
    ensures
        cands_view(r@) == s_dedup(cands_view(rs@)),
{
    let len = rs.len();
    let mut out: Vec<Cand> = Vec::new();
    let mut i: usize = 0;
    proof {
        assert(cands_view(rs@.take(0)) =~= Seq::empty());
        assert(cands_view(out@) =~= s_dedup(cands_view(rs@.take(0))));
    }
    while i < len
        invariant
            0 <= i <= len,
            len == rs@.len(),
            cands_view(out@) == s_dedup(cands_view(rs@.take(i as int))),
        decreases len - i,
    {
        let cur = &rs[i];
        let olen = out.len();
        let mut dup = false;
        let mut j: usize = 0;
        while j < olen
            invariant
                0 <= j <= olen,
                olen == out@.len(),
                i < rs@.len(),
                cur == &rs@[i as int],
                dup <==> exists|w: int|
                    0 <= w < j && (#[trigger] out@[w]).text@ == rs@[i as int].text@,
            decreases olen - j,
        {
            let same = out[j].text.len() == cur.text.len() && suffix_tree::range_eq(
                &out[j].text,
                0,
                &cur.text,
                0,
                cur.text.len(),
            );
            proof {
                if same {
                    assert(out@[j as int].text@.subrange(0, out@[j as int].text@.len() as int)
                        =~= out@[j as int].text@);
                    assert(rs@[i as int].text@.subrange(0, rs@[i as int].text@.len() as int)
                        =~= rs@[i as int].text@);
                }
            }
            if same && !dup {
                dup = true;
            }
            j = j + 1;
        }
        proof {
            lemma_dedup_props(cands_view(rs@.take(i as int)));
            assert(rs@.take(i + 1).drop_last() =~= rs@.take(i as int));
            assert(cands_view(rs@.take(i + 1)).drop_last() =~= cands_view(rs@.take(i as int)));
            assert(cands_view(rs@.take(i + 1)).last() == cand_view(rs@[i as int]));
            let tv = cands_view(rs@.take(i as int));
            let tv1 = cands_view(rs@.take(i + 1));
            assert(dup ==> exists|w: int|
                0 <= w < tv1.len() - 1 && tv1[w].0 == tv1.last().0) by {
                if dup {
                    let w = choose|w: int|
                        0 <= w < out@.len() && (#[trigger] out@[w]).text@ == rs@[i as int].text@;
                    assert(cands_view(out@)[w].0 == rs@[i as int].text@);
                    let j = choose|j: int|
                        0 <= j < tv.len() && tv[j].0 == (#[trigger] s_dedup(tv)[w]).0;
                    assert(tv1[j].0 == tv1.last().0);
                }
            }
            assert((exists|w: int| 0 <= w < tv1.len() - 1 && tv1[w].0 == tv1.last().0)
                ==> dup) by {
                if exists|w: int| 0 <= w < tv1.len() - 1 && tv1[w].0 == tv1.last().0 {
                    let w = choose|w: int| 0 <= w < tv1.len() - 1 && tv1[w].0 == tv1.last().0;
                    assert(tv[w].0 == rs@[i as int].text@);
                    let j = choose|j: int|
                        0 <= j < s_dedup(tv).len() && s_dedup(tv)[j].0 == (#[trigger] tv[w]).0;
                    assert(cands_view(out@)[j].0 == rs@[i as int].text@);
                    assert(out@[j].text@ == rs@[i as int].text@);
                }
            }
        }
        if !dup {
            out.push(Cand {
                text: suffix_tree::copy_range(&cur.text, 0, cur.text.len()),
                count: cur.count,
                expl: { let e = &cur.expl; crate::encoder::copy_expl_pub(e) },
            });
            proof {
                assert(cands_view(out@).drop_last() =~= cands_view(out@).take(
                    cands_view(out@).len() - 1,
                ));
                assert(cand_view(out@[out@.len() - 1]) == cand_view(rs@[i as int])) by {
                    assert(out@[out@.len() - 1].text@ =~= rs@[i as int].text@);
                }
                assert(cands_view(out@) =~= s_dedup(cands_view(rs@.take(i + 1))));
            }
        } else {
            proof {
                assert(cands_view(out@) =~= s_dedup(cands_view(rs@.take(i + 1))));
            }
        }
        i = i + 1;
    }
    proof {
        assert(rs@.take(len as int) =~= rs@);
    }
    out
}


proof fn lemma_occurrences_upto_count(row: usize, t: Seq<char>, q: Seq<char>, k: int, r: usize, o: usize)
    requires
        0 <= k <= usize::MAX,
    ensures
        occurrences_in_upto_count(row, t, q, k, r, o),
    decreases k,
{
    if k > 0 {
        lemma_occurrences_upto_count(row, t, q, k - 1, r, o);
    }
}

/// The multiplicity of `(r, o)` among the occurrences of `q` counted up
/// to offset `k` of text `row`.
pub open spec fn occurrences_in_upto_count(
    row: usize,
    t: Seq<char>,
    q: Seq<char>,
    k: int,
    r: usize,
    o: usize,
) -> bool {
    suffix_tree::occurrences_upto(row, t, q, k).count((r, o)) == if r == row && 0 <= (o as int)
        < k && q.is_prefix_of(t.skip(o as int)) {
        1nat
    } else {
        0nat
    }
}

impl Quranize {
    /// A pattern that occurs nowhere in the texts has the empty
    /// occurrence multiset, so `find` returns nothing for it.
    pub proof fn lemma_absent_pattern(ts: Seq<Seq<char>>, q: Seq<char>)
        requires
            q.len() > 0,
            ts.len() <= usize::MAX,
            forall|i: int| 0 <= i < ts.len() ==> (#[trigger] ts[i]).len() <= usize::MAX,
            forall|r: int, o: int|
                0 <= r < ts.len() && 0 <= o < ts[r].len() ==> !q.is_prefix_of(
                    #[trigger] ts[r].skip(o),
                ),
        ensures
            Self::corpus_occurrences(ts, q) == Multiset::<(usize, usize)>::empty(),
    {
        assert forall|v: (usize, usize)|
            Self::corpus_occurrences(ts, q).count(v) == 0 by {
            Self::lemma_occurrence_meaning(ts, q, v.0, v.1);
        }
        assert(Self::corpus_occurrences(ts, q) =~= Multiset::<(usize, usize)>::empty());
    }

    /// What `find` returns, spelled out: each pair `(r, o)` appears in the
    /// occurrence multiset exactly once when pattern `q` sits in text `r`
    /// at offset `o`, and never otherwise. In particular the number of
    /// returned pairs is the exact number of occurrences, and a pattern
    /// present nowhere yields the empty result.
    pub proof fn lemma_occurrence_meaning(ts: Seq<Seq<char>>, q: Seq<char>, r: usize, o: usize)
        requires
            q.len() > 0,
            ts.len() <= usize::MAX,
            forall|i: int| 0 <= i < ts.len() ==> (#[trigger] ts[i]).len() <= usize::MAX,
        ensures
            Self::corpus_occurrences(ts, q).count((r, o)) == if (r as int) < ts.len() && 0 <= (
            o as int) < ts[r as int].len() && q.is_prefix_of(ts[r as int].skip(o as int)) {
                1nat
            } else {
                0nat
            },
        decreases ts.len(),
    {
        if ts.len() == 0 {
        } else {
            Self::lemma_occurrence_meaning(ts.drop_last(), q, r, o);
            let last_row = (ts.len() - 1) as usize;
            lemma_occurrences_upto_count(last_row, ts.last(), q, ts.last().len() as int, r, o);
            if (r as int) < ts.len() - 1 {
                assert(ts.drop_last()[r as int] == ts[r as int]);
            }
        }
    }
}

proof fn lemma_total_len_mono(ts: Seq<String>, k1: int, k2: int)
    requires
        0 <= k1 <= k2,
    ensures
        spec_total_len(ts, k1) <= spec_total_len(ts, k2),
    decreases k2 - k1,
{
    if k1 < k2 {
        lemma_total_len_mono(ts, k1, k2 - 1);
    }
}

} // verus!
