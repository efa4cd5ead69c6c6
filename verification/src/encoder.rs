//! The backtracking matcher: walks the suffix tree against canonicalized
//! Latin input, trying every candidate spelling of every reachable Arabic
//! character, and collects every reconstruction that consumes the whole
//! input. Text and explanation are built back to front along the
//! recursion and reversed once at the end.

use vstd::prelude::*;

use crate::suffix_tree::{Node, wf, lemma_wf_parts};
use crate::suffix_tree;
use crate::transliteration::{
    spec_map, spec_muqottoah_map, spec_contextual_map, map_candidates, muqottoah_candidates,
    contextual_candidates,
};

verus! {

/// One reconstruction: Arabic text, its occurrence count at the matched
/// point of the tree, and one spelling per Arabic character.
pub struct Cand {
    pub text: Vec<char>,
    pub count: usize,
    pub expl: Vec<Vec<char>>,
}

pub open spec fn cand_view(c: Cand) -> (Seq<char>, usize, Seq<Seq<char>>) {
    (c.text@, c.count, c.expl.deep_view())
}

pub open spec fn cands_view(v: Seq<Cand>) -> Seq<(Seq<char>, usize, Seq<Seq<char>>)> {
    v.map_values(|c: Cand| cand_view(c))
}

/// The spellings tried for character `c`: the closed letter-name table in
/// mysterious-letters mode, otherwise the ordinary table extended by the
/// contextual entries for the previously matched character.
pub open spec fn s_cands(c: char, pm: Option<char>, muq: bool) -> Seq<Seq<char>> {
    if muq {
        spec_muqottoah_map(c)
    } else {
        spec_map(c) + spec_contextual_map(pm, c)
    }
}

/// Extends every partial reconstruction by one matched character.
pub open spec fn s_push(
    rs: Seq<(Seq<char>, usize, Seq<Seq<char>>)>,
    c: char,
    tsl: Seq<char>,
) -> Seq<(Seq<char>, usize, Seq<Seq<char>>)> {
    rs.map_values(
        |r: (Seq<char>, usize, Seq<Seq<char>>)| (r.0.push(c), r.1, r.2.push(tsl)),
    )
}

/// The reconstructions found on branch `bi` of `m` with `k` label
/// characters already consumed, trying candidate spellings from index `t`
/// on. A spelling that is a prefix of the remaining input either completes
/// the match (in mysterious-letters mode only at a terminal node reached
/// exactly), or the walk continues along the label or into the child.
pub open spec fn s_match(
    m: Node,
    bi: int,
    k: int,
    s: Seq<char>,
    muq: bool,
    cands: Seq<Seq<char>>,
    t: int,
) -> Seq<(Seq<char>, usize, Seq<Seq<char>>)>
    decreases m, 1int, (if 0 <= bi < m.branches@.len() && 0 <= k
        < m.branches@[bi].label@.len() {
        m.branches@[bi].label@.len() - k
    } else {
        0int
    }), cands.len() - t, 1int,
{
    if !(0 <= bi < m.branches@.len()) || !(0 <= k < m.branches@[bi].label@.len()) || s.len() == 0
        || !(0 <= t < cands.len()) {
        Seq::empty()
    } else {
        let label = m.branches@[bi].label@;
        let c = label[k];
        let child = m.branches@[bi].child;
        let tsl = cands[t];
        let rest = s_match(m, bi, k, s, muq, cands, t + 1);
        let this = if tsl.is_prefix_of(s) {
            let s2 = s.skip(tsl.len() as int);
            if s2.len() == 0 {
                if !muq || (k + 1 == label.len() && child.terminal) {
                    seq![(seq![c], child.count, seq![tsl])]
                } else {
                    Seq::empty()
                }
            } else if k + 1 == label.len() {
                s_push(s_node(child, s2, Some(c), muq), c, tsl)
            } else {
                s_push(
                    s_match(m, bi, k + 1, s2, muq, s_cands(label[k + 1], Some(c), muq), 0),
                    c,
                    tsl,
                )
            }
        } else {
            Seq::empty()
        };
        this + rest
    }
}

/// The reconstructions found from branches `bj..` of `m`.
pub open spec fn s_branches(m: Node, bj: int, s: Seq<char>, pm: Option<char>, muq: bool) -> Seq<
    (Seq<char>, usize, Seq<Seq<char>>),
>
    decreases m, 2int, 0int, m.branches@.len() - bj, 0int,
{
    if !(0 <= bj < m.branches@.len()) {
        Seq::empty()
    } else if m.branches@[bj].label@.len() == 0 {
        s_branches(m, bj + 1, s, pm, muq)
    } else {
        s_match(m, bj, 0, s, muq, s_cands(m.branches@[bj].label@[0], pm, muq), 0) + s_branches(
            m,
            bj + 1,
            s,
            pm,
            muq,
        )
    }
}

/// The reconstructions found from node `m` for the remaining input `s`.
pub open spec fn s_node(m: Node, s: Seq<char>, pm: Option<char>, muq: bool) -> Seq<
    (Seq<char>, usize, Seq<Seq<char>>),
>
    decreases m, 3int, 0int, 0int, 0int,
{
    s_branches(m, 0, s, pm, muq)
}

/// The spellings tried for `c`, executable form.
pub fn candidates(c: char, pm: Option<char>, muq: bool) -> (r: Vec<Vec<char>>)
    ensures
        r.deep_view() == s_cands(c, pm, muq),
{
    if muq {
        muqottoah_candidates(c)
    } else {
        let mut r = map_candidates(c);
        let mut ctx = contextual_candidates(pm, c);
        let ghost r0 = r.deep_view();
        let ghost c0 = ctx.deep_view();
        r.append(&mut ctx);
        proof {
            assert(r.deep_view() =~~= r0 + c0);
        }
        r
    }
}

fn copy_chars(v: &Vec<char>) -> (r: Vec<char>)
    ensures
        r@ == v@,
{
    let r = suffix_tree::copy_range(v, 0, v.len());
    proof {
        assert(r@ =~= v@);
    }
    r
}

pub fn copy_expl_pub(v: &Vec<Vec<char>>) -> (r: Vec<Vec<char>>)
    ensures
        r.deep_view() == v.deep_view(),
{
    let mut r: Vec<Vec<char>> = Vec::new();
    let mut i: usize = 0;
    let len = v.len();
    while i < len
        invariant
            0 <= i <= len,
            len == v@.len(),
            r@.len() == i,
            forall|j: int| 0 <= j < i ==> #[trigger] r@[j]@ == v@[j]@,
        decreases len - i,
    {
        let piece = copy_chars(&v[i]);
        r.push(piece);
        i = i + 1;
    }
    proof {
        assert(r.deep_view() =~~= v.deep_view());
    }
    r
}

/// Extends every reconstruction in `rs` by the matched character `c` and
/// its spelling `tsl`.
fn push_all(rs: Vec<Cand>, c: char, tsl: &Vec<char>) -> (r: Vec<Cand>)
    ensures
        cands_view(r@) == s_push(cands_view(rs@), c, tsl@),
{
    let mut r: Vec<Cand> = Vec::new();
    let mut i: usize = 0;
    let len = rs.len();
    while i < len
        invariant
            0 <= i <= len,
            len == rs@.len(),
            r@.len() == i,
            forall|j: int|
                0 <= j < i ==> #[trigger] cand_view(r@[j]) == (
                    cand_view(rs@[j]).0.push(c),
                    cand_view(rs@[j]).1,
                    cand_view(rs@[j]).2.push(tsl@),
                ),
        decreases len - i,
    {
        let e = &rs[i];
        let mut text = copy_chars(&e.text);
        text.push(c);
        let mut expl = copy_expl_pub(&e.expl);
        expl.push(copy_chars(tsl));
        let ghost olde = rs@[i as int];
        let cand = Cand { text, count: e.count, expl };
        proof {
            assert(cand.expl.deep_view() =~~= olde.expl.deep_view().push(tsl@));
        }
        r.push(cand);
        i = i + 1;
    }
    proof {
        assert(cands_view(r@) =~~= s_push(cands_view(rs@), c, tsl@));
    }
    r
}

/// The matcher on one branch, executable form.
#[verifier::rlimit(100)]
pub fn enc_match(
    m: &Node,
    bi: usize,
    k: usize,
    s: &Vec<char>,
    spos: usize,
    muq: bool,
    cands: &Vec<Vec<char>>,
    t: usize,
) -> (r: Vec<Cand>)
    requires
        wf(*m),
        bi < m.branches@.len(),
        k < m.branches@[bi as int].label@.len(),
        spos < s@.len(),
        t <= cands@.len(),
    ensures
        cands_view(r@) == s_match(
            *m,
            bi as int,
            k as int,
            s@.skip(spos as int),
            muq,
            cands.deep_view(),
            t as int,
        ),
    decreases *m, 1int, m.branches@[bi as int].label@.len() - k, cands@.len() - t, 1int,
{
    let ghost srem = s@.skip(spos as int);
    if t == cands.len() {
        let r: Vec<Cand> = Vec::new();
        proof {
            assert(cands_view(r@) =~= s_match(
                *m,
                bi as int,
                k as int,
                srem,
                muq,
                cands.deep_view(),
                t as int,
            ));
        }
        return r;
    }
    let tsl = &cands[t];
    let ghost tslv = cands.deep_view()[t as int];
    proof {
        assert(tslv == tsl@);
        lemma_wf_parts(*m);
    }
    let slen = s.len();
    let this: Vec<Cand> = if tsl.len() <= slen - spos && suffix_tree::range_eq(
        tsl,
        0,
        s,
        spos,
        tsl.len(),
    ) {
        proof {
            assert(tsl@.subrange(0, tsl@.len() as int) =~= tsl@);
            assert(s@.subrange(spos as int, spos + tsl@.len()) =~= srem.subrange(
                0,
                tsl@.len() as int,
            ));
            assert(tslv.is_prefix_of(srem));
        }
        let spos2 = spos + tsl.len();
        proof {
            assert(s@.skip(spos2 as int) =~= srem.skip(tslv.len() as int));
        }
        let lab_len = m.branches[bi].label.len();
        let c = m.branches[bi].label[k];
        if spos2 == slen {
            let acceptable = if muq {
                k + 1 == lab_len && m.branches[bi].child.terminal
            } else {
                true
            };
            if acceptable {
                let mut text: Vec<char> = Vec::new();
                text.push(c);
                let mut expl: Vec<Vec<char>> = Vec::new();
                expl.push(copy_chars(tsl));
                let one = Cand { text, count: m.branches[bi].child.count, expl };
                let mut v: Vec<Cand> = Vec::new();
                proof {
                    assert(one.expl.deep_view() =~~= seq![tslv]);
                }
                v.push(one);
                v
            } else {
                Vec::new()
            }
        } else if k + 1 == lab_len {
            let sub = enc_node(&m.branches[bi].child, s, spos2, Some(c), muq);
            push_all(sub, c, tsl)
        } else {
            let c2 = m.branches[bi].label[k + 1];
            let cands2 = candidates(c2, Some(c), muq);
            let sub = enc_match(m, bi, k + 1, s, spos2, muq, &cands2, 0);
            push_all(sub, c, tsl)
        }
    } else {
        proof {
            if tslv.is_prefix_of(srem) {
                assert(tsl@.subrange(0, tsl@.len() as int) =~= tsl@);
                assert(s@.subrange(spos as int, spos + tsl@.len()) =~= srem.subrange(
                    0,
                    tsl@.len() as int,
                ));
            }
        }
        Vec::new()
    };
    let mut rest = enc_match(m, bi, k, s, spos, muq, cands, t + 1);
    let ghost thisv = cands_view(this@);
    let ghost restv = cands_view(rest@);
    let mut out = this;
    out.append(&mut rest);
    proof {
        assert(cands_view(out@) =~= thisv + restv);
        assert(cands_view(out@) =~= s_match(
            *m,
            bi as int,
            k as int,
            srem,
            muq,
            cands.deep_view(),
            t as int,
        ));
    }
    out
}

/// The matcher over the branches of a node, executable form.
pub fn enc_branches(
    m: &Node,
    bj: usize,
    s: &Vec<char>,
    spos: usize,
    pm: Option<char>,
    muq: bool,
) -> (r: Vec<Cand>)
    requires
        wf(*m),
        bj <= m.branches@.len(),
        spos < s@.len(),
    ensures
        cands_view(r@) == s_branches(*m, bj as int, s@.skip(spos as int), pm, muq),
    decreases *m, 2int, 0int, m.branches@.len() - bj, 0int,
{
    let ghost srem = s@.skip(spos as int);
    if bj == m.branches.len() {
        let r: Vec<Cand> = Vec::new();
        proof {
            assert(cands_view(r@) =~= s_branches(*m, bj as int, srem, pm, muq));
        }
        r
    } else {
        proof {
            lemma_wf_parts(*m);
        }
        let c0 = m.branches[bj].label[0];
        let cands = candidates(c0, pm, muq);
        let this = enc_match(m, bj, 0, s, spos, muq, &cands, 0);
        let mut rest = enc_branches(m, bj + 1, s, spos, pm, muq);
        let ghost thisv = cands_view(this@);
        let ghost restv = cands_view(rest@);
        let mut out = this;
        out.append(&mut rest);
        proof {
            assert(cands_view(out@) =~= thisv + restv);
            assert(cands_view(out@) =~= s_branches(*m, bj as int, srem, pm, muq));
        }
        out
    }
}

/// The matcher from a node, executable form: every branch is tried.
pub fn enc_node(m: &Node, s: &Vec<char>, spos: usize, pm: Option<char>, muq: bool) -> (r: Vec<
    Cand,
>)
    requires
        wf(*m),
        spos < s@.len(),
    ensures
        cands_view(r@) == s_node(*m, s@.skip(spos as int), pm, muq),
    decreases *m, 3int, 0int, 0int, 0int,
{
    enc_branches(m, 0, s, spos, pm, muq)
}

} // verus!
