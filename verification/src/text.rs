use vstd::prelude::*;

verus! {

/// ASCII lowercase of one character: 'A'..='Z' become 'a'..='z', all else is kept.
pub open spec fn ascii_lower(c: char) -> char {
    if 'A' <= c && c <= 'Z' {
        ((c as u32) + 32) as char
    } else {
        c
    }
}

/// Two strings are equal once both are ASCII-lowercased.
pub open spec fn eq_ignore_ascii_case(a: Seq<char>, b: Seq<char>) -> bool {
    a.map_values(|c: char| ascii_lower(c)) == b.map_values(|c: char| ascii_lower(c))
}

/// What `str::to_lowercase` returns: the full Unicode lowercase mapping of a string.
pub uninterp spec fn unicode_lowercase(s: Seq<char>) -> Seq<char>;

/// Whether two characters are equal once both are ASCII-lowercased.
fn char_eq_ignore_ascii_case(a: char, b: char) -> (res: bool)
    ensures
        res == (ascii_lower(a) == ascii_lower(b)),
{
    let x = a as u32;
    let y = b as u32;
    let lx = if 65 <= x && x <= 90 { x + 32 } else { x };
    let ly = if 65 <= y && y <= 90 { y + 32 } else { y };
    proof {
        assert(ascii_lower(a) as u32 == lx);
        assert(ascii_lower(b) as u32 == ly);
    }
    lx == ly
}

/// Whether two strings are equal once both are ASCII-lowercased (what
/// `str::eq_ignore_ascii_case` computes).
pub fn str_eq_ignore_ascii_case(a: &str, b: &str) -> (res: bool)
    ensures
        res == eq_ignore_ascii_case(a@, b@),
{
    let n = a.unicode_len();
    if n != b.unicode_len() {
        assert(a@.map_values(|c: char| ascii_lower(c)).len() != b@.map_values(|c: char| ascii_lower(c)).len());
        return false;
    }
    let ghost la = a@.map_values(|c: char| ascii_lower(c));
    let ghost lb = b@.map_values(|c: char| ascii_lower(c));
    for i in 0..n
        invariant
            n == a@.len(),
            n == b@.len(),
            la == a@.map_values(|c: char| ascii_lower(c)),
            lb == b@.map_values(|c: char| ascii_lower(c)),
            forall|j: int| 0 <= j < i ==> #[trigger] la[j] == lb[j],
    {
        if !char_eq_ignore_ascii_case(a.get_char(i), b.get_char(i)) {
            assert(la[i as int] != lb[i as int]);
            return false;
        }
    }
    assert(la =~= lb);
    true
}

/// Calls `str::to_lowercase`; the result is named `unicode_lowercase` of the
/// argument (it is locale-independent, a function of the string alone).
#[verifier::external_body]
pub(crate) fn str_to_lowercase(s: &str) -> (res: String)
    ensures
        res@ == unicode_lowercase(s@),
{
    s.to_lowercase()
}

/// Comparing ignoring ASCII case: strings match exactly when they have the
/// same length and, position by position, the characters are equal or are the
/// same ASCII letter in upper and lower case. Every other character, ASCII or
/// not, must be equal; in particular every string matches itself.
pub proof fn law_eq_ignore_ascii_case(a: Seq<char>, b: Seq<char>)
    ensures
        eq_ignore_ascii_case(a, a),
        eq_ignore_ascii_case(a, b) == eq_ignore_ascii_case(b, a),
        eq_ignore_ascii_case(a, b) <==> (a.len() == b.len() && forall|i: int|
            0 <= i < a.len() ==> {
                ||| #[trigger] a[i] == b[i]
                ||| 'A' <= a[i] <= 'Z' && (b[i] as u32) == (a[i] as u32) + 32
                ||| 'A' <= b[i] <= 'Z' && (a[i] as u32) == (b[i] as u32) + 32
            }),
{
    let la = a.map_values(|c: char| ascii_lower(c));
    let lb = b.map_values(|c: char| ascii_lower(c));
    assert forall|i: int| 0 <= i < a.len() && a.len() == b.len() implies (la[i] == lb[i] <==> {
        ||| #[trigger] a[i] == b[i]
        ||| 'A' <= a[i] <= 'Z' && (b[i] as u32) == (a[i] as u32) + 32
        ||| 'A' <= b[i] <= 'Z' && (a[i] as u32) == (b[i] as u32) + 32
    }) by {
        let x = a[i];
        let y = b[i];
        assert(la[i] == ascii_lower(x));
        assert(lb[i] == ascii_lower(y));
        if 'A' <= x <= 'Z' {
            assert(ascii_lower(x) as u32 == (x as u32) + 32);
        } else {
            assert(ascii_lower(x) == x);
        }
        if 'A' <= y <= 'Z' {
            assert(ascii_lower(y) as u32 == (y as u32) + 32);
        } else {
            assert(ascii_lower(y) == y);
        }
    }
    if a.len() == b.len() {
        if forall|i: int| 0 <= i < a.len() ==> {
            ||| #[trigger] a[i] == b[i]
            ||| 'A' <= a[i] <= 'Z' && (b[i] as u32) == (a[i] as u32) + 32
            ||| 'A' <= b[i] <= 'Z' && (a[i] as u32) == (b[i] as u32) + 32
        } {
            assert(la =~= lb);
        }
        if eq_ignore_ascii_case(a, b) {
            assert forall|i: int| 0 <= i < a.len() implies la[i] == lb[i] by {}
        }
    }
    assert(a.map_values(|c: char| ascii_lower(c)) =~= la);
    assert(eq_ignore_ascii_case(a, b) ==> la.len() == lb.len());
}

} // verus!
