//! Small scanners over text: numbers inside debug messages, image file
//! names, and serial port names.
use vstd::prelude::*;

verus! {

/// `pat` occurs in `s` starting at position `i`.
pub open spec fn occurs_at(s: Seq<char>, pat: Seq<char>, i: int) -> bool {
    0 <= i && i + pat.len() <= s.len() && s.subrange(i, i + pat.len()) == pat
}

/// `i` is the first position at which `pat` occurs in `s`.
pub open spec fn first_occurrence(s: Seq<char>, pat: Seq<char>, i: int) -> bool {
    occurs_at(s, pat, i) && forall|j: int| 0 <= j < i ==> !occurs_at(s, pat, j)
}

/// `pat` occurs somewhere in `s`.
pub open spec fn contains_text(s: Seq<char>, pat: Seq<char>) -> bool {
    exists|i: int| occurs_at(s, pat, i)
}

/// The characters of `s`.
pub fn chars_of(s: &str) -> (r: Vec<char>)
    ensures
        r@ == s@,
{
    let n = s.unicode_len();
    let mut out: Vec<char> = Vec::new();
    let mut i: usize = 0;
    while i < n
        invariant
            n == s@.len(),
            i <= n,
            out@ == s@.take(i as int),
        decreases n - i,
    {
        out.push(s.get_char(i));
        i = i + 1;
        assert(out@ =~= s@.take(i as int));
    }
    assert(s@.take(n as int) =~= s@);
    out
}

/// Whether `pat` occurs in `s` at position `i`.
pub fn matches_at(s: &[char], pat: &[char], i: usize) -> (r: bool)
    ensures
        r == occurs_at(s@, pat@, i as int),
{
    let slen = s.len();
    if i > slen || pat.len() > slen - i {
        return false;
    }
    let mut j: usize = 0;
    while j < pat.len()
        invariant
            slen == s@.len(),
            i + pat@.len() <= s@.len(),
            j <= pat@.len(),
            forall|m: int| 0 <= m < j ==> s@[i + m] == pat@[m],
        decreases pat@.len() - j,
    {
        if s[i + j] != pat[j] {
            assert(s@.subrange(i as int, i + pat@.len())[j as int] != pat@[j as int]);
            return false;
        }
        j = j + 1;
    }
    assert(s@.subrange(i as int, i + pat@.len()) =~= pat@);
    true
}

/// The first position at which `pat` occurs in `s`, if it does.
pub fn find_text(s: &[char], pat: &[char]) -> (r: Option<usize>)
    ensures
        match r {
            Some(i) => first_occurrence(s@, pat@, i as int),
            None => !contains_text(s@, pat@),
        },
{
    let mut i: usize = 0;
    while i < s.len()
        invariant
            i <= s@.len(),
            forall|j: int| 0 <= j < i ==> !occurs_at(s@, pat@, j),
        decreases s@.len() - i,
    {
        if matches_at(s, pat, i) {
            return Some(i);
        }
        i = i + 1;
    }
    if matches_at(s, pat, i) {
        return Some(i);
    }
    assert forall|j: int| !occurs_at(s@, pat@, j) by {
        if 0 <= j && j > i {
            assert(j > s@.len());
        }
    }
    None
}

/// Unicode's White_Space characters, the ones `char::is_whitespace` accepts.
pub open spec fn is_white_space(c: char) -> bool {
    ('\u{9}' <= c && c <= '\u{d}') || c == ' ' || c == '\u{85}' || c == '\u{a0}' || c
        == '\u{1680}' || ('\u{2000}' <= c && c <= '\u{200a}') || c == '\u{2028}' || c == '\u{2029}'
        || c == '\u{202f}' || c == '\u{205f}' || c == '\u{3000}'
}

fn white_space(c: char) -> (r: bool)
    ensures
        r == is_white_space(c),
{
    ('\u{9}' <= c && c <= '\u{d}') || c == ' ' || c == '\u{85}' || c == '\u{a0}' || c
        == '\u{1680}' || ('\u{2000}' <= c && c <= '\u{200a}') || c == '\u{2028}' || c == '\u{2029}'
        || c == '\u{202f}' || c == '\u{205f}' || c == '\u{3000}'
}

/// The characters a number in a debug message is made of: digits, `.` and `-`.
pub open spec fn is_number_char(c: char) -> bool {
    ('0' <= c && c <= '9') || c == '.' || c == '-'
}

/// `to` is where the run of white space that starts at `from` ends.
pub open spec fn white_run_end(s: Seq<char>, from: int, to: int) -> bool {
    &&& from <= to <= s.len()
    &&& forall|m: int| from <= m < to ==> is_white_space(#[trigger] s[m])
    &&& (to == s.len() || !is_white_space(s[to]))
}

/// `to` is where the run of number characters that starts at `from` ends.
pub open spec fn number_run_end(s: Seq<char>, from: int, to: int) -> bool {
    &&& from <= to <= s.len()
    &&& forall|m: int| from <= m < to ==> is_number_char(#[trigger] s[m])
    &&& (to == s.len() || !is_number_char(s[to]))
}

/// A number's run is made of ASCII digits `0` to `9`, `.` and `-`, and ends
/// at the first character that is none of these (or at the end of the
/// text).
pub proof fn lemma_number_run_chars(s: Seq<char>, from: int, to: int)
    requires
        number_run_end(s, from, to),
    ensures
        forall|m: int|
            from <= m < to ==> ('0' <= #[trigger] s[m] && s[m] <= '9') || s[m] == '.' || s[m] == '-',
        to < s.len() ==> !(('0' <= s[to] && s[to] <= '9') || s[to] == '.' || s[to] == '-'),
{
}

/// `"field":`, the key that introduces a field of a JSON object.
pub open spec fn field_key(field: Seq<char>) -> Seq<char> {
    seq!['"'] + field + seq!['"', ':']
}

/// The text `null`.
pub open spec fn null_text() -> Seq<char> {
    seq!['n', 'u', 'l', 'l']
}

/// The characters from `from` to the end of the run of white space there.
fn skip_white(s: &[char], from: usize) -> (r: usize)
    requires
        from <= s@.len(),
    ensures
        white_run_end(s@, from as int, r as int),
{
    let mut i = from;
    while i < s.len() && white_space(s[i])
        invariant
            from <= i <= s@.len(),
            forall|m: int| from <= m < i ==> is_white_space(#[trigger] s@[m]),
        decreases s@.len() - i,
    {
        i = i + 1;
    }
    i
}

/// The end of the run of number characters that starts at `from`.
fn number_end(s: &[char], from: usize) -> (r: usize)
    requires
        from <= s@.len(),
    ensures
        number_run_end(s@, from as int, r as int),
{
    let mut i = from;
    while i < s.len() && (('0' <= s[i] && s[i] <= '9') || s[i] == '.' || s[i] == '-')
        invariant
            from <= i <= s@.len(),
            forall|m: int| from <= m < i ==> is_number_char(#[trigger] s@[m]),
        decreases s@.len() - i,
    {
        i = i + 1;
    }
    i
}

/// Locates the number given for `field` in a flat JSON message: after the
/// first `"field":` and any white space, the run of digits, `.` and `-`
/// there, as a range of character positions (possibly empty). `None` when
/// the key is absent or its value is `null`.
pub fn field_number_span(json: &str, field: &str) -> (r: Option<(usize, usize)>)
    ensures
        match r {
            None => forall|i: int, a: int|
                first_occurrence(json@, field_key(field@), i) && white_run_end(
                    json@,
                    i + field_key(field@).len(),
                    a,
                ) ==> occurs_at(json@, null_text(), a),
            Some((a, b)) => exists|i: int|
                {
                    &&& first_occurrence(json@, field_key(field@), i)
                    &&& white_run_end(json@, i + field_key(field@).len(), a as int)
                    &&& !occurs_at(json@, null_text(), a as int)
                    &&& number_run_end(json@, a as int, b as int)
                },
        },
        r matches Some((a, b)) ==> {
            &&& a <= b <= json@.len()
            &&& forall|m: int|
                a <= m < b ==> ('0' <= #[trigger] json@[m] && json@[m] <= '9') || json@[m] == '.'
                    || json@[m] == '-'
            &&& b < json@.len() ==> !(('0' <= json@[b as int] && json@[b as int] <= '9') || json@[b as int]
                == '.' || json@[b as int] == '-')
        },
{
    let s = chars_of(json);
    let f = chars_of(field);
    let mut key: Vec<char> = Vec::new();
    key.push('"');
    let mut j: usize = 0;
    while j < f.len()
        invariant
            j <= f@.len(),
            key@ == seq!['"'] + f@.take(j as int),
        decreases f@.len() - j,
    {
        key.push(f[j]);
        j = j + 1;
        assert(key@ =~= seq!['"'] + f@.take(j as int));
    }
    key.push('"');
    key.push(':');
    assert(f@.take(f@.len() as int) =~= f@);
    assert(key@ =~= field_key(field@));
    let slen = s.len();
    let found = find_text(s.as_slice(), key.as_slice());
    match found {
        None => None,
        Some(i) => {
            let start = i + key.len();
            let a = skip_white(s.as_slice(), start);
            let mut null: Vec<char> = Vec::new();
            null.push('n');
            null.push('u');
            null.push('l');
            null.push('l');
            assert(null@ =~= null_text());
            if matches_at(s.as_slice(), null.as_slice(), a) {
                proof {
                    assert forall|i2: int, a2: int|
                        first_occurrence(json@, field_key(field@), i2) && white_run_end(
                            json@,
                            i2 + field_key(field@).len(),
                            a2,
                        ) implies occurs_at(json@, null_text(), a2) by {
                        if i2 < i {
                            assert(!occurs_at(json@, field_key(field@), i2));
                        }
                        if i < i2 {
                            assert(!occurs_at(json@, field_key(field@), i as int));
                        }
                        assert(i2 == i);
                        if a2 < a {
                            assert(is_white_space(json@[a2]));
                        }
                        if a < a2 {
                            assert(is_white_space(json@[a as int]));
                        }
                    }
                }
                None
            } else {
                let b = number_end(s.as_slice(), a);
                proof {
                    lemma_number_run_chars(json@, a as int, b as int);
                }
                Some((a, b))
            }
        },
    }
}

/// The code of `c` with ASCII capitals folded to lower case.
pub open spec fn folded_code(c: char) -> u32 {
    if 65 <= (c as u32) && (c as u32) <= 90 {
        ((c as u32) + 32) as u32
    } else {
        c as u32
    }
}

/// `s` ends with `suffix` (lower-case ASCII), ignoring ASCII case.
pub open spec fn ends_with_folded(s: Seq<char>, suffix: Seq<char>) -> bool {
    suffix.len() <= s.len() && forall|i: int|
        0 <= i < suffix.len() ==> folded_code(s[s.len() - suffix.len() + i]) == suffix[i] as u32
}

/// Names of the image files a sequence is made of: `.png`, `.jpg` or
/// `.jpeg`, in any case.
pub open spec fn is_image_file_name(name: Seq<char>) -> bool {
    ends_with_folded(name, seq!['.', 'p', 'n', 'g']) || ends_with_folded(name, seq!['.', 'j', 'p', 'g'])
        || ends_with_folded(name, seq!['.', 'j', 'p', 'e', 'g'])
}

fn ends_with_ignoring_case(s: &[char], suffix: &[char]) -> (r: bool)
    ensures
        r == ends_with_folded(s@, suffix@),
{
    let slen = s.len();
    if suffix.len() > slen {
        return false;
    }
    let base = slen - suffix.len();
    let mut i: usize = 0;
    while i < suffix.len()
        invariant
            slen == s@.len(),
            base == s@.len() - suffix@.len(),
            i <= suffix@.len(),
            forall|m: int| 0 <= m < i ==> folded_code(s@[base + m]) == suffix@[m] as u32,
        decreases suffix@.len() - i,
    {
        let c = s[base + i] as u32;
        let folded = if 65 <= c && c <= 90 {
            c + 32
        } else {
            c
        };
        if folded != suffix[i] as u32 {
            return false;
        }
        i = i + 1;
    }
    true
}

/// Whether `name` is an image file of a sequence: it ends in `.png`, `.jpg`
/// or `.jpeg`, in any mix of upper and lower case. (Unicode lower-casing
/// maps no character other than the ASCII capitals onto these letters or
/// the dot, so folding ASCII case alone decides it.)
pub fn has_image_extension(name: &str) -> (r: bool)
    ensures
        r == is_image_file_name(name@),
{
    let s = chars_of(name);
    let mut png: Vec<char> = Vec::new();
    png.push('.');
    png.push('p');
    png.push('n');
    png.push('g');
    let mut jpg: Vec<char> = Vec::new();
    jpg.push('.');
    jpg.push('j');
    jpg.push('p');
    jpg.push('g');
    let mut jpeg: Vec<char> = Vec::new();
    jpeg.push('.');
    jpeg.push('j');
    jpeg.push('p');
    jpeg.push('e');
    jpeg.push('g');
    assert(png@ =~= seq!['.', 'p', 'n', 'g']);
    assert(jpg@ =~= seq!['.', 'j', 'p', 'g']);
    assert(jpeg@ =~= seq!['.', 'j', 'p', 'e', 'g']);
    ends_with_ignoring_case(s.as_slice(), png.as_slice()) || ends_with_ignoring_case(
        s.as_slice(),
        jpg.as_slice(),
    ) || ends_with_ignoring_case(s.as_slice(), jpeg.as_slice())
}

/// The marker in the name of the serial port the angle sensor appears on.
pub open spec fn usbmodem_text() -> Seq<char> {
    seq!['u', 's', 'b', 'm', 'o', 'd', 'e', 'm']
}

/// The position of the first port name that contains `usbmodem`, the serial
/// port the angle sensor appears on.
pub fn find_teensy_port(names: &[String]) -> (r: Option<usize>)
    ensures
        match r {
            Some(i) => i < names@.len() && contains_text(names@[i as int]@, usbmodem_text())
                && forall|j: int| 0 <= j < i ==> !contains_text(names@[j]@, usbmodem_text()),
            None => forall|j: int|
                0 <= j < names@.len() ==> !contains_text(names@[j]@, usbmodem_text()),
        },
{
    let mut marker: Vec<char> = Vec::new();
    marker.push('u');
    marker.push('s');
    marker.push('b');
    marker.push('m');
    marker.push('o');
    marker.push('d');
    marker.push('e');
    marker.push('m');
    assert(marker@ =~= usbmodem_text());
    let mut i: usize = 0;
    while i < names.len()
        invariant
            marker@ == usbmodem_text(),
            i <= names@.len(),
            forall|j: int| 0 <= j < i ==> !contains_text(names@[j]@, usbmodem_text()),
        decreases names@.len() - i,
    {
        let name = chars_of(names[i].as_str());
        let hit = find_text(name.as_slice(), marker.as_slice());
        if hit.is_some() {
            return Some(i);
        }
        i = i + 1;
    }
    None
}

} // verus!
