//! Turning text into a slug: lower case, accents removed, every run of
//! other characters replaced by one hyphen.

use crate::text::first_at;
use vstd::prelude::*;

verus! {

/// The accented letters that have a plain counterpart.
pub const SUBS_I: &'static str =
    "\u{e0}\u{e1}\u{e2}\u{e4}\u{e6}\u{e3}\u{e5}\u{101}\u{103}\u{105}\u{e7}\u{107}\u{10d}\u{111}\u{10f}\u{e8}\u{e9}\u{ea}\u{eb}\u{113}\u{117}\u{119}\u{11b}\u{11f}\u{1f5}\u{1e27}\u{ee}\u{ef}\u{ed}\u{12b}\u{12f}\u{ec}\u{131}\u{130}\u{142}\u{1e3f}\u{f1}\u{144}\u{1f9}\u{148}\u{f4}\u{f6}\u{f2}\u{f3}\u{153}\u{f8}\u{14d}\u{f5}\u{151}\u{1e55}\u{155}\u{159}\u{df}\u{15b}\u{161}\u{15f}\u{219}\u{165}\u{21b}\u{fb}\u{fc}\u{f9}\u{fa}\u{16b}\u{1d8}\u{16f}\u{171}\u{173}\u{1e83}\u{1e8d}\u{ff}\u{fd}\u{17e}\u{17a}\u{17c}";

/// Their counterparts, position by position.
pub const SUBS_O: &'static str =
    "aaaaaaaaaacccddeeeeeeeegghiiiiiiiilmnnnnoooooooooprrsssssttuuuuuuuuuwxyyzzz";

/// The lower-case form of a text, as Unicode defines it.
pub uninterp spec fn lowered(s: Seq<char>) -> Seq<char>;

/// `str::to_lowercase` of the standard library: the result is named
/// [`lowered`], a function of the text alone.
#[verifier::external_body]
fn lowercase(s: &str) -> (r: String)
    ensures
        r@ == lowered(s@),
{
    s.to_lowercase()
}

/// The letter without its accent: the counterpart of `c` if `c` is one
/// of the accented letters, and `c` itself otherwise.
pub open spec fn plain(c: char) -> char {
    let i = first_at(SUBS_I@, c);
    if 0 <= i < SUBS_I@.len() {
        if i < SUBS_O@.len() {
            SUBS_O@[i]
        } else {
            SUBS_O@.last()
        }
    } else {
        c
    }
}

/// What a character becomes in a slug: itself if it is a lower-case
/// ASCII letter or a digit, a hyphen otherwise.
pub open spec fn slug_char(c: char) -> char {
    if ('a' <= c <= 'z') || ('0' <= c <= '9') {
        c
    } else {
        '-'
    }
}

/// The slug of the first `k` characters of `s`: each character without
/// its accent and mapped by [`slug_char`], a hyphen being dropped where
/// it would follow a hyphen.
pub open spec fn slug_of(s: Seq<char>, k: int) -> Seq<char>
    decreases k,
{
    if k <= 0 {
        Seq::empty()
    } else {
        let before = slug_of(s, k - 1);
        let next = slug_char(plain(s[k - 1]));
        if before.len() > 0 && before.last() == '-' && next == '-' {
            before
        } else {
            before.push(next)
        }
    }
}

/// Replaces an accented letter by its plain counterpart.
pub fn remove_diacritic(c: char) -> (r: char)
    ensures
        r == plain(c),
{
    proof {
        reveal_strlit("aaaaaaaaaacccddeeeeeeeegghiiiiiiiilmnnnnoooooooooprrsssssttuuuuuuuuuwxyyzzz");
    }
    let n = SUBS_I.unicode_len();
    let m = SUBS_O.unicode_len();
    let mut i: usize = 0;
    while i < n
        invariant
            i <= n,
            n == SUBS_I@.len(),
            m == SUBS_O@.len(),
            m > 0,
            forall|j: int| 0 <= j < i ==> SUBS_I@[j] != c,
        decreases n - i,
    {
        if SUBS_I.get_char(i) == c {
            proof {
                crate::text::lemma_first_at(SUBS_I@, c, i as int);
            }
            let at = if i < m {
                i
            } else {
                m - 1
            };
            return SUBS_O.get_char(at);
        }
        i += 1;
    }
    proof {
        crate::text::lemma_first_at(SUBS_I@, c, n as int);
    }
    c
}

/// The slug of a text that is in lower case already.
pub fn slugify_lowered(lowered: &str) -> (r: String)
    ensures
        r@ == slug_of(lowered@, lowered@.len() as int),
{
    let mut slugified = String::new();
    let mut last: Option<char> = None;
    let n = lowered.unicode_len();
    let mut k: usize = 0;
    while k < n
        invariant
            k <= n,
            n == lowered@.len(),
            slugified@ == slug_of(lowered@, k as int),
            last == if slugified@.len() > 0 {
                Some(slugified@.last())
            } else {
                None
            },
        decreases n - k,
    {
        let c = remove_diacritic(lowered.get_char(k));
        let next_char = if (c >= 'a' && c <= 'z') || (c >= '0' && c <= '9') {
            c
        } else {
            '-'
        };
        k += 1;
        match last {
            Some(val) => if val == '-' && next_char == '-' {
                continue ;
            },
            None => (),
        }
        slugified.push(next_char);
        last = Some(next_char);
    }
    slugified
}

/// The slug of a text.
pub fn slugify(slug: String) -> (r: String)
    ensures
        r@ == slug_of(lowered(slug@), lowered(slug@).len() as int),
{
    let low = lowercase(slug.as_str());
    slugify_lowered(low.as_str())
}

} // verus!
