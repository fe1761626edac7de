//! Text processing: the longest line of a text, ROT13, abbreviation
//! expansion, and `key value` lines.

use vstd::prelude::*;
use vstd::utf8::encode_utf8;
use crate::text::{
    chars_of, lines, push_chars, push_char, replace_all, replace_chars, split_lines, split_ws,
    split_whitespace, string_of,
};

verus! {

/// The length of a line in bytes, as `str::len` reports it.
pub open spec fn byte_len(l: Seq<char>) -> int {
    encode_utf8(l).len() as usize as int
}

/// `line` is the first line of `ls` with the most bytes and `n` its length in
/// bytes; the empty line and 0 when every line is empty.
pub open spec fn longest_by_bytes(ls: Seq<Seq<char>>, line: Seq<char>, n: int) -> bool {
    &&& forall|i: int| 0 <= i < ls.len() ==> #[trigger] byte_len(ls[i]) <= n
    &&& n == 0 ==> line == Seq::<char>::empty()
    &&& n > 0 ==> exists|i: int| 0 <= i < ls.len() && #[trigger] byte_len(ls[i]) == n && line == ls[i] && forall|j: int| 0 <= j < i ==> #[trigger] byte_len(ls[j]) < n
}

/// `line` is the first line of `ls` with the most characters and `n` its
/// length; the empty line and 0 when every line is empty.
pub open spec fn longest_by_chars(ls: Seq<Seq<char>>, line: Seq<char>, n: int) -> bool {
    &&& forall|i: int| 0 <= i < ls.len() ==> #[trigger] ls[i].len() <= n
    &&& n == 0 ==> line == Seq::<char>::empty()
    &&& n > 0 ==> exists|i: int| 0 <= i < ls.len() && #[trigger] ls[i].len() == n && line == ls[i] && forall|j: int| 0 <= j < i ==> #[trigger] ls[j].len() < n
}

/// The longest lines of a text.
pub struct LongestLines {
    /// The first line with the most bytes.
    pub by_bytes: String,
    /// Its length in bytes.
    pub bytes: usize,
    /// The first line with the most characters.
    pub by_chars: String,
    /// Its length in characters.
    pub chars: usize,
}

/// Finds the first line with the most bytes and the first with the most
/// characters.
pub fn longest_lines(text: &str) -> (r: LongestLines)
    ensures
        longest_by_bytes(lines(text@), r.by_bytes@, r.bytes as int),
        longest_by_chars(lines(text@), r.by_chars@, r.chars as int),
{
    let ls = split_lines(&chars_of(text));
    let ghost g = lines(text@);
    let mut line_maxb: Vec<char> = Vec::new();
    let mut line_maxc: Vec<char> = Vec::new();
    let mut maxb: usize = 0;
    let mut maxc: usize = 0;
    let ghost mut ib: int = -1;
    let ghost mut ic: int = -1;
    let mut k: usize = 0;
    while k < ls.len()
        invariant
            k <= ls@.len(),
            ls@.len() == g.len(),
            forall|m: int| 0 <= m < ls@.len() ==> #[trigger] ls@[m]@ == g[m],
            forall|i: int| 0 <= i < k ==> #[trigger] byte_len(g[i]) <= maxb,
            forall|i: int| 0 <= i < k ==> #[trigger] g[i].len() <= maxc,
            maxb == 0 ==> line_maxb@ == Seq::<char>::empty(),
            maxb > 0 ==> 0 <= ib < k && byte_len(g[ib]) == maxb && line_maxb@ == g[ib] && forall|j: int| 0 <= j < ib ==> #[trigger] byte_len(g[j]) < maxb,
            maxc == 0 ==> line_maxc@ == Seq::<char>::empty(),
            maxc > 0 ==> 0 <= ic < k && g[ic].len() == maxc && line_maxc@ == g[ic] && forall|j: int| 0 <= j < ic ==> #[trigger] g[j].len() < maxc,
        decreases ls@.len() - k,
    {
        let line = string_of(&ls[k]);
        let nb = line.as_str().len();
        assert(byte_len(g[k as int]) == nb);
        assert(g[k as int].len() == ls@[k as int]@.len());
        if nb > maxb {
            maxb = nb;
            line_maxb = ls[k].clone();
            proof {
                ib = k as int;
            }
        }
        let nc = ls[k].len();
        if nc > maxc {
            maxc = nc;
            line_maxc = ls[k].clone();
            proof {
                ic = k as int;
            }
        }
        k = k + 1;
    }
    LongestLines { by_bytes: string_of(&line_maxb), bytes: maxb, by_chars: string_of(&line_maxc), chars: maxc }
}

/// An ASCII upper-case letter.
pub open spec fn is_upper(c: char) -> bool {
    65 <= (c as u32) <= 90
}

/// An ASCII lower-case letter.
pub open spec fn is_lower(c: char) -> bool {
    97 <= (c as u32) <= 122
}

/// ROT13 of an ASCII letter: the letter thirteen places further on, in the
/// same case, going round after `z`.
pub open spec fn rot13(c: char) -> char {
    if is_upper(c) {
        ((((c as u32) - 65 + 13) % 26) + 65) as char
    } else {
        ((((c as u32) - 97 + 13) % 26) + 97) as char
    }
}

/// ROT13 of every character of `w`.
pub open spec fn rot13_word(w: Seq<char>) -> Seq<char> {
    w.map_values(|c: char| rot13(c))
}

/// Every character of `w` is an ASCII letter.
pub open spec fn all_letters(w: Seq<char>) -> bool {
    forall|i: int| 0 <= i < w.len() ==> is_upper(#[trigger] w[i]) || is_lower(w[i])
}

/// The word encoded with ROT13, or the first character that is not an ASCII
/// letter.
pub fn pb2(word: &str) -> (r: Result<String, char>)
    ensures
        all_letters(word@) ==> (r matches Ok(s) && s@ == rot13_word(word@)),
        !all_letters(word@) ==> (r matches Err(c) && exists|i: int| 0 <= i < word@.len() && word@[i] == c && !(is_upper(c) || is_lower(c)) && all_letters(word@.take(i))),
{
    let w = chars_of(word);
    let mut coded = String::new();
    let mut i: usize = 0;
    while i < w.len()
        invariant
            i <= w@.len(),
            w@ == word@,
            all_letters(w@.take(i as int)),
            coded@ == rot13_word(w@.take(i as int)),
        decreases w@.len() - i,
    {
        let c = w[i];
        let u = c as u32;
        let new_c = if 65 <= u && u <= 90 {
            (((u - 65 + 13) % 26) + 65) as u8 as char
        } else if 97 <= u && u <= 122 {
            (((u - 97 + 13) % 26) + 97) as u8 as char
        } else {
            assert(w@[i as int] == c);
            return Err(c);
        };
        assert(new_c == rot13(c));
        push_char(&mut coded, new_c);
        i = i + 1;
        assert(w@.take(i as int) =~= w@.take(i - 1).push(c));
        assert(coded@ =~= rot13_word(w@.take(i as int)));
    }
    assert(w@.take(i as int) =~= w@);
    Ok(coded)
}

/// ROT13 undoes itself.
pub proof fn rot13_involution(w: Seq<char>)
    requires
        all_letters(w),
    ensures
        all_letters(rot13_word(w)),
        rot13_word(rot13_word(w)) == w,
{
    assert forall|i: int| 0 <= i < w.len() implies is_upper(#[trigger] rot13_word(w)[i]) || is_lower(rot13_word(w)[i]) by {
        assert(is_upper(w[i]) || is_lower(w[i]));
    }
    assert forall|i: int| 0 <= i < w.len() implies #[trigger] rot13_word(rot13_word(w))[i] == w[i] by {
        let c = w[i];
        let u = c as u32;
        assert(rot13_word(w)[i] == rot13(c));
        assert(rot13_word(rot13_word(w))[i] == rot13(rot13(c)));
        vstd::utf8::char_u32_cast(c, u);
        if is_upper(c) {
            let y = (u - 65 + 13) % 26;
            assert(rot13(c) == ((y + 65) as u32) as char);
            assert((((y + 65) as u32) as char) as u32 == y + 65);
            assert(((y + 13) % 26) + 65 == u);
        } else {
            let y = (u - 97 + 13) % 26;
            assert(rot13(c) == ((y + 97) as u32) as char);
            assert((((y + 97) as u32) as char) as u32 == y + 97);
            assert(((y + 13) % 26) + 97 == u);
        }
    }
    assert(rot13_word(rot13_word(w)) =~= w);
}

/// The text with the abbreviations written out: `" pt "` and `" ptr "` become
/// `" pentru "`, `" dl "` becomes `" domnul "`, `" dna "` becomes
/// `" doamna "`, in that order.
pub open spec fn expanded(t: Seq<char>) -> Seq<char> {
    replace_all(
        replace_all(
            replace_all(replace_all(t, " pt "@, " pentru "@), " ptr "@, " pentru "@),
            " dl "@,
            " domnul "@,
        ),
        " dna "@,
        " doamna "@,
    )
}

/// Writes out the abbreviations of a text.
pub fn expand_abbreviations(text: &str) -> (r: String)
    ensures
        r@ == expanded(text@),
{
    proof {
        reveal_strlit(" pt ");
        reveal_strlit(" ptr ");
        reveal_strlit(" dl ");
        reveal_strlit(" dna ");
    }
    let t = chars_of(text);
    let pentru = chars_of(" pentru ");
    let t = replace_chars(&t, &chars_of(" pt "), &pentru);
    let t = replace_chars(&t, &chars_of(" ptr "), &pentru);
    let t = replace_chars(&t, &chars_of(" dl "), &chars_of(" domnul "));
    let t = replace_chars(&t, &chars_of(" dna "), &chars_of(" doamna "));
    string_of(&t)
}

/// The report line for one line of a `key value` file: the first two words,
/// either of which may be missing.
pub open spec fn pair_line(l: Seq<char>) -> Seq<char> {
    let w = split_ws(l);
    (if w.len() > 0 {
        w[0]
    } else {
        seq![]
    }) + " => "@ + (if w.len() > 1 {
        w[1]
    } else {
        seq![]
    }) + "\n"@
}

/// A comment line, starting with `#`.
pub open spec fn is_comment(l: Seq<char>) -> bool {
    l.len() > 0 && l[0] == '#'
}

/// The report for the first `n` lines: one line per line that is not a
/// comment.
pub open spec fn pairs_report(ls: Seq<Seq<char>>, n: int) -> Seq<char>
    decreases n,
{
    if n <= 0 {
        seq![]
    } else {
        pairs_report(ls, n - 1) + if is_comment(ls[n - 1]) {
            seq![]
        } else {
            pair_line(ls[n - 1])
        }
    }
}

/// For each line that is not a comment, its first word and second word
/// joined by `" => "`.
pub fn key_value_report(text: &str) -> (r: String)
    ensures
        r@ == pairs_report(lines(text@), lines(text@).len() as int),
{
    let ls = split_lines(&chars_of(text));
    let ghost g = lines(text@);
    let mut out = String::new();
    let mut k: usize = 0;
    while k < ls.len()
        invariant
            k <= ls@.len(),
            ls@.len() == g.len(),
            forall|m: int| 0 <= m < ls@.len() ==> #[trigger] ls@[m]@ == g[m],
            out@ == pairs_report(g, k as int),
        decreases ls@.len() - k,
    {
        let line = &ls[k];
        assert(line@ == g[k as int]);
        if !(line.len() > 0 && line[0] == '#') {
            let words = split_whitespace(line);
            if words.len() > 0 {
                push_chars(&mut out, &words[0]);
            }
            out.append(" => ");
            if words.len() > 1 {
                push_chars(&mut out, &words[1]);
            }
            out.append("\n");
        }
        k = k + 1;
        assert(out@ =~= pairs_report(g, k as int));
    }
    out
}

/// Each line adds to the report on its own: a line whose first character
/// is `#` adds nothing; any other line, a `#` further on included, adds its
/// first word, `" => "`, its second word (each empty when missing) and a
/// newline.
pub proof fn report_line_by_line(ls: Seq<Seq<char>>, n: int)
    requires
        0 <= n < ls.len(),
    ensures
        pairs_report(ls, n + 1) == pairs_report(ls, n) + if ls[n].len() > 0 && ls[n][0] == '#' {
            seq![]
        } else {
            (if split_ws(ls[n]).len() > 0 {
                split_ws(ls[n])[0]
            } else {
                seq![]
            }) + " => "@ + (if split_ws(ls[n]).len() > 1 {
                split_ws(ls[n])[1]
            } else {
                seq![]
            }) + "\n"@
        },
{
}

} // verus!
