//! Transliteration tables: for each Arabic character an ordered list of
//! candidate Latin spellings. The first entry of a list is the preferred
//! spelling, which the decoder uses; the encoder tries every entry. A
//! separate closed table covers the spelled-out letter names used by the
//! mysterious sura openings, and a small contextual table adds spellings
//! that depend on the previously matched character (consonant doubling
//! under the shadda mark).

use vstd::prelude::*;

verus! {

/// The consonant-doubling diacritic.
pub const SHADDA: char = '\u{0651}';

/// Candidate spellings of `c` in ordinary text; the first is preferred.
pub open spec fn spec_map(c: char) -> Seq<Seq<char>> {
    match c {
        ' ' => seq![seq![]],
        'ا' => seq![seq!['a'], seq![]],
        'ب' => seq![seq!['b']],
        'ت' => seq![seq!['t']],
        'ث' => seq![seq!['t', 's'], seq!['s']],
        'ج' => seq![seq!['j']],
        'ح' => seq![seq!['h']],
        'خ' => seq![seq!['k', 'h'], seq!['h']],
        'د' => seq![seq!['d']],
        'ذ' => seq![seq!['d'], seq!['d', 'z']],
        'ر' => seq![seq!['r']],
        'ز' => seq![seq!['z']],
        'س' => seq![seq!['s']],
        'ش' => seq![seq!['s', 'y'], seq!['s', 'h'], seq!['s']],
        'ص' => seq![seq!['s'], seq!['s', 'h']],
        'ض' => seq![seq!['d'], seq!['d', 'h']],
        'ط' => seq![seq!['t'], seq!['t', 'h']],
        'ظ' => seq![seq!['z'], seq!['z', 'h']],
        'ع' => seq![seq![], seq!['\'']],
        'غ' => seq![seq!['g'], seq!['g', 'h']],
        'ف' => seq![seq!['f']],
        'ق' => seq![seq!['k'], seq!['q']],
        'ك' => seq![seq!['k']],
        'ل' => seq![seq!['l'], seq![]],
        'م' => seq![seq!['m']],
        'ن' => seq![seq!['n']],
        'ه' => seq![seq!['h']],
        'و' => seq![seq!['w'], seq!['u']],
        'ي' => seq![seq!['y'], seq!['i']],
        'ء' => seq![seq![], seq!['\''], seq!['a']],
        'أ' => seq![seq![], seq!['a']],
        'إ' => seq![seq![], seq!['i']],
        'آ' => seq![seq!['a'], seq!['a', 'a']],
        'ؤ' => seq![seq![], seq!['\''], seq!['u']],
        'ئ' => seq![seq![], seq!['\''], seq!['i']],
        'ة' => seq![seq!['h'], seq!['t']],
        'ى' => seq![seq!['a']],
        'ٰ' => seq![seq!['a']],
        'ـ' => seq![seq![]],
        'َ' => seq![seq!['a'], seq!['o'], seq![]],
        'ِ' => seq![seq!['i'], seq![]],
        'ُ' => seq![seq!['u'], seq![]],
        'ً' => seq![seq!['a', 'n'], seq!['n']],
        'ٌ' => seq![seq!['u', 'n'], seq!['n']],
        'ٍ' => seq![seq!['i', 'n'], seq!['n']],
        'ْ' => seq![seq![]],
        _ => seq![],
    }
}

/// Candidate spellings of `c` as a spelled-out letter name; the first is
/// preferred. This table is closed: only the letters that appear in the
/// mysterious sura openings are present.
pub open spec fn spec_muqottoah_map(c: char) -> Seq<Seq<char>> {
    match c {
        'ا' => seq![seq!['a', 'l', 'i', 'f']],
        'ل' => seq![
            seq!['l', 'a', 'm'],
            seq!['l', 'a', 'a', 'm'],
            seq!['l', 'a', 'a', 'a', 'm'],
        ],
        'م' => seq![
            seq!['m', 'i', 'm'],
            seq!['m', 'i', 'i', 'm'],
            seq!['m', 'i', 'i', 'i', 'm'],
        ],
        'ن' => seq![
            seq!['n', 'u', 'n'],
            seq!['n', 'u', 'u', 'n'],
            seq!['n', 'u', 'u', 'u', 'n'],
        ],
        'ك' => seq![
            seq!['k', 'a', 'f'],
            seq!['k', 'a', 'a', 'f'],
            seq!['k', 'a', 'a', 'a', 'f'],
        ],
        'ه' => seq![seq!['h', 'a'], seq!['h', 'a', 'a']],
        'ي' => seq![seq!['y', 'a'], seq!['y', 'a', 'a']],
        'ع' => seq![
            seq!['\'', 'a', 'i', 'n'],
            seq!['a', 'i', 'n'],
            seq!['a', 'i', 'i', 'i', 'n'],
        ],
        'ص' => seq![
            seq!['s', 'h', 'o', 'd'],
            seq!['s', 'h', 'o', 'o', 'o', 'd'],
            seq!['s', 'o', 'd'],
        ],
        'ر' => seq![seq!['r', 'o'], seq!['r', 'a']],
        'ح' => seq![seq!['h', 'a'], seq!['h', 'a', 'a']],
        'ط' => seq![seq!['t', 'o'], seq!['t', 'h', 'o'], seq!['t', 'a']],
        'س' => seq![seq!['s', 'i', 'n'], seq!['s', 'i', 'i', 'n']],
        'ق' => seq![seq!['q', 'o', 'f'], seq!['k', 'o', 'f']],
        _ => seq![],
    }
}

/// Extra spellings of `c` that depend on the previously matched character:
/// under the shadda mark the previous character's preferred spelling may be
/// repeated, or the mark may be skipped.
pub open spec fn spec_contextual_map(prev: Option<char>, c: char) -> Seq<Seq<char>> {
    match prev {
        Some(p) => if c == SHADDA {
            if spec_map(p).len() > 0 {
                seq![spec_map(p)[0], seq![]]
            } else {
                seq![seq![]]
            }
        } else {
            seq![]
        },
        None => seq![],
    }
}

fn s1(a: char) -> (r: Vec<char>)
    ensures
        r@ =~= seq![a],
{
    let mut r: Vec<char> = Vec::new();
    r.push(a);
    r
}

fn s2(a: char, b: char) -> (r: Vec<char>)
    ensures
        r@ =~= seq![a, b],
{
    let mut r: Vec<char> = Vec::new();
    r.push(a);
    r.push(b);
    r
}

fn s3(a: char, b: char, c: char) -> (r: Vec<char>)
    ensures
        r@ =~= seq![a, b, c],
{
    let mut r: Vec<char> = Vec::new();
    r.push(a);
    r.push(b);
    r.push(c);
    r
}

fn s4(a: char, b: char, c: char, d: char) -> (r: Vec<char>)
    ensures
        r@ =~= seq![a, b, c, d],
{
    let mut r = s3(a, b, c);
    r.push(d);
    r
}

fn s5(a: char, b: char, c: char, d: char, e: char) -> (r: Vec<char>)
    ensures
        r@ =~= seq![a, b, c, d, e],
{
    let mut r = s4(a, b, c, d);
    r.push(e);
    r
}

fn s6(a: char, b: char, c: char, d: char, e: char, f: char) -> (r: Vec<char>)
    ensures
        r@ =~= seq![a, b, c, d, e, f],
{
    let mut r = s5(a, b, c, d, e);
    r.push(f);
    r
}

fn t1(x: Vec<char>) -> (r: Vec<Vec<char>>)
    ensures
        r.deep_view() =~~= seq![x@],
{
    let mut r: Vec<Vec<char>> = Vec::new();
    r.push(x);
    proof {
        assert(r.deep_view() =~~= seq![x@]);
    }
    r
}

fn t2(x: Vec<char>, y: Vec<char>) -> (r: Vec<Vec<char>>)
    ensures
        r.deep_view() =~~= seq![x@, y@],
{
    let mut r: Vec<Vec<char>> = Vec::new();
    r.push(x);
    r.push(y);
    proof {
        assert(r.deep_view() =~~= seq![x@, y@]);
    }
    r
}

fn t3(x: Vec<char>, y: Vec<char>, z: Vec<char>) -> (r: Vec<Vec<char>>)
    ensures
        r.deep_view() =~~= seq![x@, y@, z@],
{
    let mut r: Vec<Vec<char>> = Vec::new();
    r.push(x);
    r.push(y);
    r.push(z);
    proof {
        assert(r.deep_view() =~~= seq![x@, y@, z@]);
    }
    r
}

/// The ordinary table, executable form.
#[verifier::rlimit(100)]
pub fn map_candidates(c: char) -> (r: Vec<Vec<char>>)
    ensures
        r.deep_view() == spec_map(c),
{
    let r = match c {
        ' ' => t1(Vec::new()),
        'ا' => t2(s1('a'), Vec::new()),
        'ب' => t1(s1('b')),
        'ت' => t1(s1('t')),
        'ث' => t2(s2('t', 's'), s1('s')),
        'ج' => t1(s1('j')),
        'ح' => t1(s1('h')),
        'خ' => t2(s2('k', 'h'), s1('h')),
        'د' => t1(s1('d')),
        'ذ' => t2(s1('d'), s2('d', 'z')),
        'ر' => t1(s1('r')),
        'ز' => t1(s1('z')),
        'س' => t1(s1('s')),
        'ش' => t3(s2('s', 'y'), s2('s', 'h'), s1('s')),
        'ص' => t2(s1('s'), s2('s', 'h')),
        'ض' => t2(s1('d'), s2('d', 'h')),
        'ط' => t2(s1('t'), s2('t', 'h')),
        'ظ' => t2(s1('z'), s2('z', 'h')),
        'ع' => t2(Vec::new(), s1('\'')),
        'غ' => t2(s1('g'), s2('g', 'h')),
        'ف' => t1(s1('f')),
        'ق' => t2(s1('k'), s1('q')),
        'ك' => t1(s1('k')),
        'ل' => t2(s1('l'), Vec::new()),
        'م' => t1(s1('m')),
        'ن' => t1(s1('n')),
        'ه' => t1(s1('h')),
        'و' => t2(s1('w'), s1('u')),
        'ي' => t2(s1('y'), s1('i')),
        'ء' => t3(Vec::new(), s1('\''), s1('a')),
        'أ' => t2(Vec::new(), s1('a')),
        'إ' => t2(Vec::new(), s1('i')),
        'آ' => t2(s1('a'), s2('a', 'a')),
        'ؤ' => t3(Vec::new(), s1('\''), s1('u')),
        'ئ' => t3(Vec::new(), s1('\''), s1('i')),
        'ة' => t2(s1('h'), s1('t')),
        'ى' => t1(s1('a')),
        'ٰ' => t1(s1('a')),
        'ـ' => t1(Vec::new()),
        'َ' => t3(s1('a'), s1('o'), Vec::new()),
        'ِ' => t2(s1('i'), Vec::new()),
        'ُ' => t2(s1('u'), Vec::new()),
        'ً' => t2(s2('a', 'n'), s1('n')),
        'ٌ' => t2(s2('u', 'n'), s1('n')),
        'ٍ' => t2(s2('i', 'n'), s1('n')),
        'ْ' => t1(Vec::new()),
        _ => Vec::new(),
    };
    proof {
        assert(r.deep_view() =~~= spec_map(c));
    }
    r
}

/// The mysterious-letters table, executable form.
#[verifier::rlimit(100)]
pub fn muqottoah_candidates(c: char) -> (r: Vec<Vec<char>>)
    ensures
        r.deep_view() == spec_muqottoah_map(c),
{
    let r = match c {
        'ا' => t1(s4('a', 'l', 'i', 'f')),
        'ل' => t3(s3('l', 'a', 'm'), s4('l', 'a', 'a', 'm'), s5('l', 'a', 'a', 'a', 'm')),
        'م' => t3(s3('m', 'i', 'm'), s4('m', 'i', 'i', 'm'), s5('m', 'i', 'i', 'i', 'm')),
        'ن' => t3(s3('n', 'u', 'n'), s4('n', 'u', 'u', 'n'), s5('n', 'u', 'u', 'u', 'n')),
        'ك' => t3(s3('k', 'a', 'f'), s4('k', 'a', 'a', 'f'), s5('k', 'a', 'a', 'a', 'f')),
        'ه' => t2(s2('h', 'a'), s3('h', 'a', 'a')),
        'ي' => t2(s2('y', 'a'), s3('y', 'a', 'a')),
        'ع' => t3(s4('\'', 'a', 'i', 'n'), s3('a', 'i', 'n'), s5('a', 'i', 'i', 'i', 'n')),
        'ص' => t3(s4('s', 'h', 'o', 'd'), s6('s', 'h', 'o', 'o', 'o', 'd'), s3('s', 'o', 'd')),
        'ر' => t2(s2('r', 'o'), s2('r', 'a')),
        'ح' => t2(s2('h', 'a'), s3('h', 'a', 'a')),
        'ط' => t3(s2('t', 'o'), s3('t', 'h', 'o'), s2('t', 'a')),
        'س' => t2(s3('s', 'i', 'n'), s4('s', 'i', 'i', 'n')),
        'ق' => t2(s3('q', 'o', 'f'), s3('k', 'o', 'f')),
        _ => Vec::new(),
    };
    proof {
        assert(r.deep_view() =~~= spec_muqottoah_map(c));
    }
    r
}

/// The contextual table, executable form.
pub fn contextual_candidates(prev: Option<char>, c: char) -> (r: Vec<Vec<char>>)
    ensures
        r.deep_view() == spec_contextual_map(prev, c),
{
    let r = match prev {
        Some(p) => if c == SHADDA {
            let base = map_candidates(p);
            if base.len() > 0 {
                let mut first = Vec::new();
                let b0 = &base[0];
                let mut j: usize = 0;
                while j < b0.len()
                    invariant
                        0 <= j <= b0@.len(),
                        first@ =~= b0@.subrange(0, j as int),
                        b0 == &base[0],
                        base.deep_view() == spec_map(p),
                        base@.len() > 0,
                    decreases b0@.len() - j,
                {
                    first.push(b0[j]);
                    proof {
                        assert(first@ =~= b0@.subrange(0, j + 1));
                    }
                    j = j + 1;
                }
                proof {
                    assert(first@ =~= base@[0]@);
                    assert(base.deep_view()[0] == base@[0]@);
                }
                t2(first, Vec::new())
            } else {
                t1(Vec::new())
            }
        } else {
            Vec::new()
        },
        None => Vec::new(),
    };
    proof {
        assert(r.deep_view() =~~= spec_contextual_map(prev, c));
    }
    r
}

} // verus!
