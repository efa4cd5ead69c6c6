//! The approximate inverse transliteration: one deterministic pass over
//! Arabic input appending each character's preferred spelling (the
//! character itself when it has none), a spacing cleanup that turns the
//! word boundaries left by empty spellings into single separators, and a
//! post-pass expanding the consonant-doubling diacritic.

use vstd::prelude::*;

use crate::suffix_tree;
use crate::transliteration::{spec_map, spec_muqottoah_map, map_candidates, muqottoah_candidates,
    SHADDA};

verus! {

/// The preferred spelling of `c`, when the ordinary table lists any.
pub open spec fn spec_primary(c: char) -> Option<Seq<char>> {
    if spec_map(c).len() > 0 {
        Some(spec_map(c)[0])
    } else {
        None
    }
}

/// The preferred letter-name spelling of `c`, when the closed table
/// lists any.
pub open spec fn spec_muq_primary(c: char) -> Option<Seq<char>> {
    if spec_muqottoah_map(c).len() > 0 {
        Some(spec_muqottoah_map(c)[0])
    } else {
        None
    }
}

/// The annotation marks that switch the decoder into letter-name mode.
pub open spec fn spec_is_annotation(c: char) -> bool {
    '\u{06D6}' <= c && c <= '\u{06DC}'
}

/// One fragment per consumed character: its preferred spelling, the raw
/// character when it has none; an annotation mark opens letter-name mode,
/// which swallows characters until one is found in the closed table.
pub open spec fn s_frags(s: Seq<char>, i: int, buf: Seq<char>, muq: bool) -> Seq<Seq<char>>
    decreases s.len() - i,
{
    if i < 0 || i >= s.len() {
        Seq::empty()
    } else {
        let c = s[i];
        if muq {
            match spec_muq_primary(c) {
                Some(p) => seq![buf + p] + s_frags(s, i + 1, Seq::empty(), false),
                None => s_frags(s, i + 1, buf, true),
            }
        } else {
            match spec_primary(c) {
                Some(p) => seq![buf + p] + s_frags(s, i + 1, Seq::empty(), false),
                None => {
                    let b2 = buf.push(c);
                    if spec_is_annotation(c) {
                        s_frags(s, i + 1, b2, true)
                    } else {
                        seq![b2] + s_frags(s, i + 1, Seq::empty(), false)
                    }
                },
            }
        }
    }
}

/// The fragments joined by single separators.
pub open spec fn s_join(frs: Seq<Seq<char>>) -> Seq<char>
    decreases frs.len(),
{
    if frs.len() == 0 {
        Seq::empty()
    } else if frs.len() == 1 {
        frs[0]
    } else {
        frs[0] + seq![' '] + s_join(frs.drop_first())
    }
}

/// Index of the first double separator, or at least `len - 1` if none.
pub open spec fn dd_at(j: Seq<char>) -> int
    decreases j.len(),
{
    if j.len() < 2 {
        j.len() as int
    } else if j[0] == ' ' && j[1] == ' ' {
        0
    } else {
        1 + dd_at(j.drop_first())
    }
}

/// The runs between double separators.
pub open spec fn s_segs(j: Seq<char>) -> Seq<Seq<char>>
    decreases j.len(),
    via s_segs_decreases
{
    if dd_at(j) + 1 >= j.len() {
        seq![j]
    } else {
        seq![j.take(dd_at(j))] + s_segs(j.skip(dd_at(j) + 2))
    }
}

#[via_fn]
proof fn s_segs_decreases(j: Seq<char>) {
    lemma_dd_at_nonneg(j);
}

proof fn lemma_dd_at_nonneg(j: Seq<char>)
    ensures
        dd_at(j) >= 0,
    decreases j.len(),
{
    if j.len() >= 2 && !(j[0] == ' ' && j[1] == ' ') {
        lemma_dd_at_nonneg(j.drop_first());
    }
}

/// The text with every separator removed.
pub open spec fn s_nospace(t: Seq<char>) -> Seq<char>
    decreases t.len(),
{
    if t.len() == 0 {
        Seq::empty()
    } else if t[0] == ' ' {
        s_nospace(t.drop_first())
    } else {
        seq![t[0]] + s_nospace(t.drop_first())
    }
}

/// The cleaned runs joined back with single separators.
pub open spec fn s_rejoin(segs: Seq<Seq<char>>) -> Seq<char>
    decreases segs.len(),
{
    if segs.len() == 0 {
        Seq::empty()
    } else if segs.len() == 1 {
        s_nospace(segs[0])
    } else {
        s_nospace(segs[0]) + seq![' '] + s_rejoin(segs.drop_first())
    }
}

/// A spelled vowel, for the doubling expansion.
pub open spec fn spec_vowel(c: char) -> bool {
    c == 'a' || c == 'i' || c == 'u'
}

/// The doubling post-pass: each doubling mark duplicates the consonant it
/// follows, looking across one spelled vowel, unless that consonant is
/// already doubled, in which case the mark is simply dropped.
pub open spec fn s_shadda(ch: Seq<char>, i: int) -> Seq<char>
    decreases ch.len() - i, ch.len(),
{
    if i < 0 || i >= ch.len() {
        ch
    } else if ch[i] != SHADDA {
        s_shadda(ch, i + 1)
    } else {
        let c2 = ch.remove(i);
        if i >= 1 {
            let t = if spec_vowel(c2[i - 1]) && i - 1 >= 1 {
                i - 2
            } else {
                i - 1
            };
            if t >= 1 && c2[t - 1] == c2[t] {
                s_shadda(c2, i)
            } else {
                s_shadda(c2.insert(t, c2[t]), i + 1)
            }
        } else {
            s_shadda(c2, i)
        }
    }
}

/// The whole decoding of `s`: the single best-effort Latin approximation.
pub open spec fn spec_decode(s: Seq<char>) -> Seq<char> {
    s_shadda(s_rejoin(s_segs(s_join(s_frags(s, 0, Seq::empty(), false)))), 0)
}

fn primary(c: char) -> (r: Option<Vec<char>>)
    ensures
        r matches Some(v) ==> spec_primary(c) == Some(v@),
        r is Some <==> spec_primary(c) is Some,
{
    let m = map_candidates(c);
    if m.len() > 0 {
        let v = suffix_tree::copy_range(&m[0], 0, m[0].len());
        proof {
            assert(v@ =~= m@[0]@);
            assert(m.deep_view()[0] == m@[0]@);
        }
        Some(v)
    } else {
        None
    }
}

fn muq_primary(c: char) -> (r: Option<Vec<char>>)
    ensures
        r matches Some(v) ==> spec_muq_primary(c) == Some(v@),
        r is Some <==> spec_muq_primary(c) is Some,
{
    let m = muqottoah_candidates(c);
    if m.len() > 0 {
        let v = suffix_tree::copy_range(&m[0], 0, m[0].len());
        proof {
            assert(v@ =~= m@[0]@);
            assert(m.deep_view()[0] == m@[0]@);
        }
        Some(v)
    } else {
        None
    }
}

fn is_annotation(c: char) -> (r: bool)
    ensures
        r == spec_is_annotation(c),
{
    '\u{06D6}' <= c && c <= '\u{06DC}'
}

/// The fragment pass, executable form.
fn fragments(s: &Vec<char>) -> (r: Vec<Vec<char>>)
    ensures
        r.deep_view() == s_frags(s@, 0, Seq::empty(), false),
{
    let len = s.len();
    let mut frs: Vec<Vec<char>> = Vec::new();
    let mut buf: Vec<char> = Vec::new();
    let mut muq = false;
    let mut i: usize = 0;
    while i < len
        invariant
            0 <= i <= len,
            len == s@.len(),
            frs.deep_view() + s_frags(s@, i as int, buf@, muq) == s_frags(
                s@,
                0,
                Seq::empty(),
                false,
            ),
        decreases len - i,
    {
        let c = s[i];
        let ghost pre_frs = frs.deep_view();
        let ghost pre_buf = buf@;
        if muq {
            match muq_primary(c) {
                Some(mut p) => {
                    let mut frag = suffix_tree::copy_range(&buf, 0, buf.len());
                    proof {
                        assert(frag@ =~= pre_buf);
                    }
                    frag.append(&mut p);
                    frs.push(frag);
                    buf.clear();
                    muq = false;
                    proof {
                        assert(frs.deep_view() =~~= pre_frs + seq![pre_buf
                            + spec_muq_primary(c)->Some_0]);
                        assert(frs.deep_view() + s_frags(s@, i + 1, buf@, muq) =~= s_frags(
                            s@,
                            0,
                            Seq::empty(),
                            false,
                        ));
                    }
                },
                None => {
                    proof {
                        assert(frs.deep_view() + s_frags(s@, i + 1, buf@, muq) =~= s_frags(
                            s@,
                            0,
                            Seq::empty(),
                            false,
                        ));
                    }
                },
            }
        } else {
            match primary(c) {
                Some(mut p) => {
                    let mut frag = suffix_tree::copy_range(&buf, 0, buf.len());
                    proof {
                        assert(frag@ =~= pre_buf);
                    }
                    frag.append(&mut p);
                    frs.push(frag);
                    buf.clear();
                    proof {
                        assert(frs.deep_view() =~~= pre_frs + seq![pre_buf
                            + spec_primary(c)->Some_0]);
                        assert(frs.deep_view() + s_frags(s@, i + 1, buf@, muq) =~= s_frags(
                            s@,
                            0,
                            Seq::empty(),
                            false,
                        ));
                    }
                },
                None => {
                    buf.push(c);
                    if is_annotation(c) {
                        muq = true;
                        proof {
                            assert(frs.deep_view() + s_frags(s@, i + 1, buf@, muq) =~= s_frags(
                                s@,
                                0,
                                Seq::empty(),
                                false,
                            ));
                        }
                    } else {
                        let frag = suffix_tree::copy_range(&buf, 0, buf.len());
                        proof {
                            assert(frag@ =~= pre_buf.push(c));
                        }
                        frs.push(frag);
                        buf.clear();
                        proof {
                            assert(frs.deep_view() =~~= pre_frs + seq![pre_buf.push(c)]);
                            assert(frs.deep_view() + s_frags(s@, i + 1, buf@, muq) =~= s_frags(
                                s@,
                                0,
                                Seq::empty(),
                                false,
                            ));
                        }
                    }
                },
            }
        }
        i = i + 1;
    }
    proof {
        assert(s_frags(s@, len as int, buf@, muq) =~= Seq::<Seq<char>>::empty());
        assert(frs.deep_view() =~~= frs.deep_view() + Seq::<Seq<char>>::empty());
    }
    frs
}

proof fn lemma_join_push(xs: Seq<Seq<char>>, x: Seq<char>)
    ensures
        s_join(xs.push(x)) == if xs.len() == 0 {
            x
        } else {
            s_join(xs) + seq![' '] + x
        },
    decreases xs.len(),
{
    if xs.len() == 0 {
        assert(xs.push(x)[0] == x);
        assert(s_join(xs.push(x)) == x);
    } else {
        assert(xs.push(x)[0] == xs[0]);
        assert(xs.push(x).drop_first() =~= xs.drop_first().push(x));
        lemma_join_push(xs.drop_first(), x);
        if xs.len() == 1 {
            assert(s_join(xs.push(x)) =~= s_join(xs) + seq![' '] + x);
        } else {
            assert(s_join(xs.push(x)) =~= s_join(xs) + seq![' '] + x);
        }
    }
}

/// The join pass, executable form.
fn join_frags(frs: &Vec<Vec<char>>) -> (r: Vec<char>)
    ensures
        r@ == s_join(frs.deep_view()),
{
    let len = frs.len();
    let mut out: Vec<char> = Vec::new();
    let mut i: usize = 0;
    proof {
        assert(frs.deep_view().take(0) =~= Seq::<Seq<char>>::empty());
    }
    while i < len
        invariant
            0 <= i <= len,
            len == frs@.len(),
            out@ == s_join(frs.deep_view().take(i as int)),
        decreases len - i,
    {
        let ghost pre = out@;
        if i > 0 {
            out.push(' ');
        }
        let mut piece = suffix_tree::copy_range(&frs[i], 0, frs[i].len());
        proof {
            assert(piece@ =~= frs.deep_view()[i as int]);
        }
        out.append(&mut piece);
        proof {
            lemma_join_push(frs.deep_view().take(i as int), frs.deep_view()[i as int]);
            assert(frs.deep_view().take(i + 1) =~= frs.deep_view().take(i as int).push(
                frs.deep_view()[i as int],
            ));
            if i == 0 {
                assert(out@ =~= frs.deep_view()[0]);
            } else {
                assert(out@ =~= s_join(frs.deep_view().take(i as int)) + seq![' ']
                    + frs.deep_view()[i as int]);
            }
        }
        i = i + 1;
    }
    proof {
        assert(frs.deep_view().take(len as int) =~= frs.deep_view());
    }
    out
}

proof fn lemma_dd_at_found(t: Seq<char>, k: int)
    requires
        0 <= k,
        k + 1 < t.len(),
        t[k] == ' ' && t[k + 1] == ' ',
        forall|m: int| 0 <= m < k ==> !(t[m] == ' ' && #[trigger] t[m + 1] == ' '),
    ensures
        dd_at(t) == k,
    decreases k,
{
    if k > 0 {
        lemma_dd_at_found(t.drop_first(), k - 1);
    }
}

proof fn lemma_dd_at_none(t: Seq<char>)
    requires
        forall|m: int| 0 <= m && m + 1 < t.len() ==> !(t[m] == ' ' && #[trigger] t[m + 1] == ' '),
    ensures
        dd_at(t) + 1 >= t.len(),
    decreases t.len(),
{
    if t.len() >= 2 {
        lemma_dd_at_none(t.drop_first());
    }
}

/// The split pass, executable form: the runs of `j[pos..]`.
fn segs_rec(j: &Vec<char>, pos: usize) -> (r: Vec<Vec<char>>)
    requires
        pos <= j@.len(),
    ensures
        r.deep_view() == s_segs(j@.skip(pos as int)),
    decreases j@.len() - pos,
{
    let ghost t = j@.skip(pos as int);
    let len = j.len();
    let mut p: usize = pos;
    while len - p > 1 && !(j[p] == ' ' && j[p + 1] == ' ')
        invariant
            pos <= p <= len,
            len == j@.len(),
            p < len || p == len,
            forall|m: int| pos <= m < p ==> !(j@[m] == ' ' && #[trigger] j@[m + 1] == ' '),
        decreases len - p,
    {
        p = p + 1;
    }
    if len - p > 1 {
        // double separator found at p
        proof {
            assert forall|m: int| 0 <= m < p - pos implies !(t[m] == ' ' && #[trigger] t[m + 1]
                == ' ') by {
                assert(t[m] == j@[pos + m]);
                assert(t[m + 1] == j@[pos + m + 1]);
            }
            lemma_dd_at_found(t, p - pos);
        }
        let piece = suffix_tree::copy_range(j, pos, p);
        let mut rest = segs_rec(j, p + 2);
        proof {
            assert(piece@ =~= t.take(p - pos));
            assert(j@.skip((p + 2) as int) =~= t.skip(p - pos + 2));
        }
        let mut out: Vec<Vec<char>> = Vec::new();
        out.push(piece);
        out.append(&mut rest);
        proof {
            assert(out.deep_view() =~~= seq![t.take(dd_at(t))] + s_segs(t.skip(dd_at(t) + 2)));
        }
        out
    } else {
        proof {
            assert forall|m: int| 0 <= m && m + 1 < t.len() implies !(t[m] == ' '
                && #[trigger] t[m + 1] == ' ') by {
                assert(t[m] == j@[pos + m]);
                assert(t[m + 1] == j@[pos + m + 1]);
            }
            lemma_dd_at_none(t);
        }
        let piece = suffix_tree::copy_range(j, pos, len);
        let mut out: Vec<Vec<char>> = Vec::new();
        proof {
            assert(piece@ =~= t);
        }
        out.push(piece);
        proof {
            assert(out.deep_view() =~~= seq![t]);
        }
        out
    }
}

fn nospace(t: &Vec<char>) -> (r: Vec<char>)
    ensures
        r@ == s_nospace(t@),
{
    let len = t.len();
    let mut out: Vec<char> = Vec::new();
    let mut i: usize = 0;
    proof {
        assert(t@.skip(0) =~= t@);
        assert(out@ + s_nospace(t@) =~= s_nospace(t@));
    }
    while i < len
        invariant
            0 <= i <= len,
            len == t@.len(),
            out@ + s_nospace(t@.skip(i as int)) == s_nospace(t@),
        decreases len - i,
    {
        proof {
            assert(t@.skip(i as int)[0] == t@[i as int]);
            assert(t@.skip(i as int).drop_first() =~= t@.skip(i + 1));
        }
        let ghost pre = out@;
        if t[i] != ' ' {
            out.push(t[i]);
            proof {
                assert(out@ =~= pre + seq![t@[i as int]]);
                assert(out@ + s_nospace(t@.skip(i + 1)) =~= s_nospace(t@));
            }
        } else {
            proof {
                assert(out@ + s_nospace(t@.skip(i + 1)) =~= s_nospace(t@));
            }
        }
        i = i + 1;
    }
    proof {
        assert(t@.skip(len as int) =~= Seq::<char>::empty());
        assert(out@ =~= out@ + s_nospace(Seq::empty()));
    }
    out
}

/// The rejoin pass, executable form: from segment `idx` on.
fn rejoin_rec(segs: &Vec<Vec<char>>, idx: usize) -> (r: Vec<char>)
    requires
        idx < segs@.len(),
    ensures
        r@ == s_rejoin(segs.deep_view().skip(idx as int)),
    decreases segs@.len() - idx,
{
    let slen = segs.len();
    let ghost ss = segs.deep_view().skip(idx as int);
    proof {
        assert(ss[0] == segs.deep_view()[idx as int]);
        assert(segs.deep_view()[idx as int] =~= segs@[idx as int]@);
    }
    let mut head = nospace(&segs[idx]);
    if idx + 1 == slen {
        proof {
            assert(ss.len() == 1);
            assert(head@ =~= s_rejoin(ss));
        }
        head
    } else {
        let mut rest = rejoin_rec(segs, idx + 1);
        head.push(' ');
        head.append(&mut rest);
        proof {
            assert(ss.drop_first() =~= segs.deep_view().skip(idx + 1));
            assert(head@ =~= s_rejoin(ss));
        }
        head
    }
}

fn vowel(c: char) -> (r: bool)
    ensures
        r == spec_vowel(c),
{
    c == 'a' || c == 'i' || c == 'u'
}

/// The doubling post-pass, executable form.
fn shadda_pass(t: Vec<char>) -> (r: Vec<char>)
    ensures
        r@ == s_shadda(t@, 0),
{
    let ghost target = s_shadda(t@, 0);
    let mut ch = t;
    let mut i: usize = 0;
    while i < ch.len()
        invariant
            0 <= i <= ch@.len(),
            s_shadda(ch@, i as int) == target,
        decreases ch@.len() - i,
    {
        if ch[i] != '\u{0651}' {
            i = i + 1;
        } else {
            let ghost pre = ch@;
            ch.remove(i);
            proof {
                assert(ch@ =~= pre.remove(i as int));
            }
            if i >= 1 {
                let mut tpos: usize = i - 1;
                if vowel(ch[i - 1]) && i - 1 >= 1 {
                    tpos = i - 2;
                }
                if tpos >= 1 && ch[tpos - 1] == ch[tpos] {
                    // already doubled: the mark is simply dropped
                } else {
                    let dup = ch[tpos];
                    let ghost mid = ch@;
                    ch.insert(tpos, dup);
                    proof {
                        assert(ch@ =~= mid.insert(tpos as int, mid[tpos as int]));
                    }
                    i = i + 1;
                }
            }
        }
    }
    ch
}

/// The whole decoding, executable form.
pub fn decode_chars(s: &Vec<char>) -> (r: Vec<char>)
    ensures
        r@ == spec_decode(s@),
{
    let frs = fragments(s);
    let j = join_frags(&frs);
    let segs = segs_rec(&j, 0);
    proof {
        assert(j@.skip(0) =~= j@);
    }
    let rejoined = if segs.len() > 0 {
        let rr = rejoin_rec(&segs, 0);
        proof {
            assert(segs.deep_view().skip(0) =~= segs.deep_view());
        }
        rr
    } else {
        Vec::new()
    };
    shadda_pass(rejoined)
}

/// Decoding reads nothing but its input: equal inputs decode equally.
pub proof fn lemma_decode_deterministic(a: Seq<char>, b: Seq<char>)
    requires
        a == b,
    ensures
        spec_decode(a) == spec_decode(b),
{
}

} // verus!
