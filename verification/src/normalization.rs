//! Input canonicalisation. Raw Latin input is restricted to the alphabet
//! the transliteration tables consume: letters are lowercased and spaces
//! are dropped; a single unrecognized character empties the canonical
//! form, which downstream yields zero results rather than an error. A
//! second canonicaliser restricts input to the alphabet of the
//! spelled-out letter names.

use vstd::prelude::*;

verus! {

/// Lowercases an ASCII letter; other characters pass through.
pub open spec fn spec_lower(c: char) -> char {
    match c {
        'A' => 'a',
        'B' => 'b',
        'C' => 'c',
        'D' => 'd',
        'E' => 'e',
        'F' => 'f',
        'G' => 'g',
        'H' => 'h',
        'I' => 'i',
        'J' => 'j',
        'K' => 'k',
        'L' => 'l',
        'M' => 'm',
        'N' => 'n',
        'O' => 'o',
        'P' => 'p',
        'Q' => 'q',
        'R' => 'r',
        'S' => 's',
        'T' => 't',
        'U' => 'u',
        'V' => 'v',
        'W' => 'w',
        'X' => 'x',
        'Y' => 'y',
        'Z' => 'z',
        _ => c,
    }
}

/// The characters the ordinary tables can consume.
pub open spec fn spec_ordinary_ok(c: char) -> bool {
    ('a' <= c && c <= 'z') || ('A' <= c && c <= 'Z') || c == ' ' || c == '\''
}

/// The characters of the spelled-out letter names.
pub open spec fn spec_muqottoah_ok(c: char) -> bool {
    spec_lower(c) == 'a' || spec_lower(c) == 'd' || spec_lower(c) == 'f' || spec_lower(c) == 'h'
        || spec_lower(c) == 'i' || spec_lower(c) == 'k' || spec_lower(c) == 'l' || spec_lower(c)
        == 'm' || spec_lower(c) == 'n' || spec_lower(c) == 'o' || spec_lower(c) == 'q'
        || spec_lower(c) == 'r' || spec_lower(c) == 's' || spec_lower(c) == 't' || spec_lower(c)
        == 'u' || spec_lower(c) == 'w' || spec_lower(c) == 'y' || c == ' ' || c == '\''
}

/// Lowercases and drops spaces, keeping the rest.
pub open spec fn spec_clean(s: Seq<char>) -> Seq<char>
    decreases s.len(),
{
    if s.len() == 0 {
        Seq::empty()
    } else if s[0] == ' ' {
        spec_clean(s.drop_first())
    } else {
        seq![spec_lower(s[0])] + spec_clean(s.drop_first())
    }
}

/// The canonical form of `s` for ordinary matching: empty as soon as any
/// character falls outside the accepted alphabet.
pub open spec fn spec_normalize(s: Seq<char>) -> Seq<char> {
    if forall|i: int| 0 <= i < s.len() ==> spec_ordinary_ok(#[trigger] s[i]) {
        spec_clean(s)
    } else {
        Seq::empty()
    }
}

/// The canonical form of `s` for mysterious-letters matching.
pub open spec fn spec_normalize_muqottoah(s: Seq<char>) -> Seq<char> {
    if forall|i: int| 0 <= i < s.len() ==> spec_muqottoah_ok(#[trigger] s[i]) {
        spec_clean(s)
    } else {
        Seq::empty()
    }
}

fn lower(c: char) -> (r: char)
    ensures
        r == spec_lower(c),
{
    match c {
        'A' => 'a',
        'B' => 'b',
        'C' => 'c',
        'D' => 'd',
        'E' => 'e',
        'F' => 'f',
        'G' => 'g',
        'H' => 'h',
        'I' => 'i',
        'J' => 'j',
        'K' => 'k',
        'L' => 'l',
        'M' => 'm',
        'N' => 'n',
        'O' => 'o',
        'P' => 'p',
        'Q' => 'q',
        'R' => 'r',
        'S' => 's',
        'T' => 't',
        'U' => 'u',
        'V' => 'v',
        'W' => 'w',
        'X' => 'x',
        'Y' => 'y',
        'Z' => 'z',
        _ => c,
    }
}

fn ordinary_ok(c: char) -> (r: bool)
    ensures
        r == spec_ordinary_ok(c),
{
    ('a' <= c && c <= 'z') || ('A' <= c && c <= 'Z') || c == ' ' || c == '\''
}

fn muqottoah_ok(c: char) -> (r: bool)
    ensures
        r == spec_muqottoah_ok(c),
{
    let l = lower(c);
    l == 'a' || l == 'd' || l == 'f' || l == 'h' || l == 'i' || l == 'k' || l == 'l' || l == 'm'
        || l == 'n' || l == 'o' || l == 'q' || l == 'r' || l == 's' || l == 't' || l == 'u' || l
        == 'w' || l == 'y' || c == ' ' || c == '\''
}

/// The canonical form for ordinary matching, executable form.
pub fn normalize(s: &Vec<char>) -> (r: Vec<char>)
    ensures
        r@ == spec_normalize(s@),
{
    let len = s.len();
    let mut i: usize = 0;
    while i < len
        invariant
            0 <= i <= len,
            len == s@.len(),
            forall|j: int| 0 <= j < i ==> spec_ordinary_ok(#[trigger] s@[j]),
        decreases len - i,
    {
        if !ordinary_ok(s[i]) {
            proof {
                assert(!spec_ordinary_ok(s@[i as int]));
            }
            return Vec::new();
        }
        i = i + 1;
    }
    let r = clean(s);
    r
}

/// The canonical form for mysterious-letters matching, executable form.
pub fn normalize_muqottoah(s: &Vec<char>) -> (r: Vec<char>)
    ensures
        r@ == spec_normalize_muqottoah(s@),
{
    let len = s.len();
    let mut i: usize = 0;
    while i < len
        invariant
            0 <= i <= len,
            len == s@.len(),
            forall|j: int| 0 <= j < i ==> spec_muqottoah_ok(#[trigger] s@[j]),
        decreases len - i,
    {
        if !muqottoah_ok(s[i]) {
            proof {
                assert(!spec_muqottoah_ok(s@[i as int]));
            }
            return Vec::new();
        }
        i = i + 1;
    }
    let r = clean(s);
    r
}

fn clean(s: &Vec<char>) -> (r: Vec<char>)
    ensures
        r@ == spec_clean(s@),
{
    let len = s.len();
    let mut out: Vec<char> = Vec::new();
    let mut i: usize = 0;
    proof {
        assert(s@.skip(0) =~= s@);
        assert(out@ + spec_clean(s@) =~= spec_clean(s@));
    }
    while i < len
        invariant
            0 <= i <= len,
            len == s@.len(),
            out@ + spec_clean(s@.skip(i as int)) == spec_clean(s@),
        decreases len - i,
    {
        let c = s[i];
        proof {
            assert(s@.skip(i as int)[0] == s@[i as int]);
            assert(s@.skip(i as int).drop_first() =~= s@.skip(i + 1));
        }
        if c != ' ' {
            let ghost pre = out@;
            out.push(lower(c));
            proof {
                assert(out@ =~= pre + seq![spec_lower(s@[i as int])]);
                assert(out@ + spec_clean(s@.skip(i + 1)) =~= spec_clean(s@));
            }
        } else {
            proof {
                assert(out@ + spec_clean(s@.skip(i + 1)) =~= spec_clean(s@));
            }
        }
        i = i + 1;
    }
    proof {
        assert(s@.skip(len as int) =~= Seq::<char>::empty());
        assert(out@ =~= out@ + spec_clean(Seq::empty()));
    }
    out
}

} // verus!
