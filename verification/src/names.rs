//! Symbol names: demangling, hash suffixes, tags, versions, and escaping.

use vstd::prelude::*;
use vstd::string::StrSliceExecFns;
use crate::text::{append_chars, chars_of, has_prefix, matches_at, string_of};

verus! {

/// The demangled form of a symbol name, as `rustc_demangle` prints it.
pub uninterp spec fn demangled(name: Seq<char>) -> Seq<char>;

/// `rustc_demangle::demangle`, printed: the readable form of a mangled symbol
/// name, or the name itself when it is not mangled. The result depends on
/// the name alone.
#[verifier::external_body]
pub(crate) fn demangle(name: &str) -> (r: String)
    ensures
        r@ == demangled(name@),
{
    rustc_demangle::demangle(name).to_string()
}

/// Number of characters of a hash suffix: `::h` and sixteen hexadecimal digits.
pub const HASH_LENGTH: usize = 19;

/// Whether `c` is a hexadecimal digit.
pub open spec fn is_hex_digit(c: char) -> bool {
    ('0' <= c && c <= '9') || ('a' <= c && c <= 'f') || ('A' <= c && c <= 'F')
}

/// Whether `s` is a hash suffix: `::h` followed by sixteen hexadecimal digits.
pub open spec fn is_hash_suffix(s: Seq<char>) -> bool {
    &&& s.len() == HASH_LENGTH
    &&& s[0] == ':'
    &&& s[1] == ':'
    &&& s[2] == 'h'
    &&& forall|i: int| 3 <= i < HASH_LENGTH ==> is_hex_digit(#[trigger] s[i])
}

/// A demangled name without its hash suffix; nothing when the name is not a
/// non-empty prefix followed by a hash suffix.
pub open spec fn spec_dehash(s: Seq<char>) -> Option<Seq<char>> {
    if s.len() > HASH_LENGTH && is_hash_suffix(s.subrange(s.len() - HASH_LENGTH, s.len() as int)) {
        Some(s.subrange(0, s.len() - HASH_LENGTH))
    } else {
        None
    }
}

fn hex_digit(c: char) -> (r: bool)
    ensures
        r == is_hex_digit(c),
{
    ('0' <= c && c <= '9') || ('a' <= c && c <= 'f') || ('A' <= c && c <= 'F')
}

/// Removes a hash suffix such as `::hfc5adc5d79855638`, if present.
pub fn dehash(demangled: &str) -> (r: Option<&str>)
    ensures
        match r {
            Some(prefix) => spec_dehash(demangled@) == Some(prefix@),
            None => spec_dehash(demangled@) is None,
        },
{
    let chars = chars_of(demangled);
    let len = chars.len();
    if len <= HASH_LENGTH {
        return None;
    }
    let start: usize = len - HASH_LENGTH;
    let ghost tail = chars@.subrange(start as int, len as int);
    if chars[start] != ':' || chars[start + 1] != ':' || chars[start + 2] != 'h' {
        proof {
            assert(tail[0] == chars@[start as int]);
            assert(tail[1] == chars@[start + 1]);
            assert(tail[2] == chars@[start + 2]);
        }
        return None;
    }
    let mut i: usize = 3;
    while i < HASH_LENGTH
        invariant
            3 <= i <= HASH_LENGTH,
            len == chars.len(),
            chars@ == demangled@,
            start + HASH_LENGTH == len,
            tail == chars@.subrange(start as int, len as int),
            forall|j: int| 3 <= j < i ==> is_hex_digit(#[trigger] tail[j]),
        decreases HASH_LENGTH - i,
    {
        if !hex_digit(chars[start + i]) {
            proof {
                assert(tail[i as int] == chars@[start + i]);
            }
            return None;
        }
        proof {
            assert(tail[i as int] == chars@[start + i]);
        }
        i += 1;
    }
    proof {
        assert(tail[0] == chars@[start as int]);
        assert(tail[1] == chars@[start + 1]);
        assert(tail[2] == chars@[start + 2]);
    }
    Some(demangled.substring_char(0, start))
}

/// Whether `c` is a decimal digit.
pub open spec fn is_decimal_digit(c: char) -> bool {
    '0' <= c && c <= '9'
}

/// Whether `name` is the name of a helper made by the compiler's function
/// outliner: `OUTLINED_FUNCTION_` followed by one or more decimal digits.
pub open spec fn spec_is_outlined_function(name: Seq<char>) -> bool {
    let prefix = "OUTLINED_FUNCTION_"@;
    &&& has_prefix(name, prefix)
    &&& name.len() > prefix.len()
    &&& forall|i: int| prefix.len() <= i < name.len() ==> is_decimal_digit(#[trigger] name[i])
}

/// Tests whether `name` names a helper made by the compiler's function outliner.
pub fn is_outlined_function(name: &str) -> (r: bool)
    ensures
        r == spec_is_outlined_function(name@),
{
    let chars = chars_of(name);
    let prefix = chars_of("OUTLINED_FUNCTION_");
    if !matches_at(&chars, &prefix, 0) || chars.len() <= prefix.len() {
        return false;
    }
    let mut i: usize = prefix.len();
    while i < chars.len()
        invariant
            prefix.len() <= i <= chars.len(),
            chars@ == name@,
            prefix@ == "OUTLINED_FUNCTION_"@,
            has_prefix(chars@, prefix@),
            chars.len() > prefix.len(),
            forall|j: int| prefix.len() <= j < i ==> is_decimal_digit(#[trigger] chars@[j]),
        decreases chars.len() - i,
    {
        let c = chars[i];
        if !('0' <= c && c <= '9') {
            return false;
        }
        i += 1;
    }
    true
}

/// Whether `name` is a tag: a marker of the tool chain that starts a region
/// of code, `$a` or `$x`, alone or followed by a dot and more.
pub open spec fn spec_is_tag(name: Seq<char>) -> bool {
    ||| name == "$a"@
    ||| has_prefix(name, "$a."@)
    ||| name == "$x"@
    ||| has_prefix(name, "$x."@)
}

/// Tests whether `name` is a tag.
pub fn is_tag(name: &str) -> (r: bool)
    ensures
        r == spec_is_tag(name@),
{
    let chars = chars_of(name);
    let a = chars_of("$a");
    let a_dot = chars_of("$a.");
    let x = chars_of("$x");
    let x_dot = chars_of("$x.");
    proof {
        assert(chars@.subrange(0, chars@.len() as int) =~= chars@);
    }
    (chars.len() == a.len() && matches_at(&chars, &a, 0)) || matches_at(&chars, &a_dot, 0) || (
    chars.len() == x.len() && matches_at(&chars, &x, 0)) || matches_at(&chars, &x_dot, 0)
}

/// Whether the marker `@@` stands in `s` at position `at`.
pub open spec fn marker_at(s: Seq<char>, at: int) -> bool {
    0 <= at && at + 2 <= s.len() && s[at] == '@' && s[at + 1] == '@'
}

/// The position of the first marker `@@` at or after `from`, or nothing
/// when there is none.
pub open spec fn first_marker(s: Seq<char>, from: int) -> Option<int>
    decreases s.len() - from,
{
    if from < 0 || from + 2 > s.len() {
        None
    } else if marker_at(s, from) {
        Some(from)
    } else {
        first_marker(s, from + 1)
    }
}

/// The name of an undefined symbol without its version: what stands before
/// the first marker `@@`; the whole name when it holds no marker.
pub open spec fn spec_strip_version(s: Seq<char>) -> Seq<char> {
    match first_marker(s, 0) {
        None => s,
        Some(at) => s.subrange(0, at),
    }
}

/// The first marker stands in the text, and no marker begins before it.
pub proof fn lemma_first_marker(s: Seq<char>, from: int)
    requires
        0 <= from,
    ensures
        match first_marker(s, from) {
            Some(at) => from <= at && marker_at(s, at) && forall|i: int|
                from <= i < at ==> !marker_at(s, i),
            None => forall|i: int| from <= i ==> !marker_at(s, i),
        },
    decreases s.len() - from,
{
    if from + 2 <= s.len() && !marker_at(s, from) {
        lemma_first_marker(s, from + 1);
    }
}

/// A name without its version is the beginning of the name, and no marker
/// begins in it.
pub proof fn lemma_strip_version(s: Seq<char>)
    ensures
        has_prefix(s, spec_strip_version(s)),
        forall|i: int| 0 <= i < spec_strip_version(s).len() ==> !marker_at(s, i),
{
    lemma_first_marker(s, 0);
    match first_marker(s, 0) {
        Some(at) => {},
        None => {
            assert(s.subrange(0, s.len() as int) =~= s);
        },
    }
}

/// Removes the version from the name of an undefined symbol.
pub fn strip_version(sym: &str) -> (r: String)
    ensures
        r@ == spec_strip_version(sym@),
{
    let chars = chars_of(sym);
    let mut i: usize = 0;
    while chars.len() >= 2 && i <= chars.len() - 2
        invariant
            i <= chars.len(),
            chars@ == sym@,
            first_marker(sym@, 0) == first_marker(sym@, i as int),
        decreases chars.len() - i,
    {
        if chars[i] == '@' && chars[i + 1] == '@' {
            return string_of(&chars, 0, i);
        }
        i += 1;
    }
    proof {
        assert(chars@.subrange(0, chars@.len() as int) =~= chars@);
    }
    string_of(&chars, 0, chars.len())
}

/// What is written for one character inside a quoted label: a double quote
/// gets a backslash in front, every other character stands for itself.
pub open spec fn escaped_char(c: char) -> Seq<char> {
    if c == '"' {
        seq!['\\', '"']
    } else {
        seq![c]
    }
}

/// What is written for a text inside a quoted label.
pub open spec fn escaped(s: Seq<char>) -> Seq<char>
    decreases s.len(),
{
    if s.len() == 0 {
        Seq::empty()
    } else {
        escaped(s.drop_last()) + escaped_char(s.last())
    }
}

/// In an escaped text no double quote stands without a backslash before it.
pub proof fn lemma_escaped_quotes(s: Seq<char>, i: int)
    requires
        0 <= i < escaped(s).len(),
        escaped(s)[i] == '"',
    ensures
        i > 0,
        escaped(s)[i - 1] == '\\',
    decreases s.len(),
{
    if s.len() > 0 {
        let head = escaped(s.drop_last());
        if i < head.len() {
            lemma_escaped_quotes(s.drop_last(), i);
            assert(escaped(s)[i - 1] == head[i - 1]);
        } else {
            let piece = escaped_char(s.last());
            assert(escaped(s)[i] == piece[i - head.len()]);
            if s.last() == '"' {
                assert(i - head.len() == 1);
                assert(escaped(s)[i - 1] == piece[0]);
            }
        }
    }
}

/// Collects text for a quoted label, escaping it on the way.
pub struct Escaper {
    writer: String,
}

impl Escaper {
    /// Everything collected so far.
    pub closed spec fn written(&self) -> Seq<char> {
        self.writer@
    }

    /// An escaper that goes on after the text `writer`.
    pub fn new(writer: String) -> (e: Escaper)
        ensures
            e.written() == writer@,
    {
        Escaper { writer }
    }

    /// Writes one character.
    pub fn write_char(&mut self, c: char)
        ensures
            final(self).written() == old(self).written() + escaped_char(c),
    {
        let mut piece: Vec<char> = Vec::new();
        if c == '"' {
            piece.push('\\');
        }
        piece.push(c);
        proof {
            assert(piece@.subrange(0, piece@.len() as int) =~= escaped_char(c));
        }
        append_chars(&mut self.writer, &piece, 0, piece.len());
    }

    /// Writes a text, character by character.
    pub fn write_str(&mut self, s: &str)
        ensures
            final(self).written() == old(self).written() + escaped(s@),
    {
        let chars = chars_of(s);
        let mut i: usize = 0;
        proof {
            assert(chars@.take(0) =~= Seq::<char>::empty());
            assert(self.written() =~= old(self).written() + escaped(chars@.take(0)));
        }
        while i < chars.len()
            invariant
                i <= chars.len(),
                self.written() == old(self).written() + escaped(chars@.take(i as int)),
            decreases chars.len() - i,
        {
            proof {
                assert(chars@.take(i + 1).drop_last() =~= chars@.take(i as int));
            }
            self.write_char(chars[i]);
            i += 1;
        }
        proof {
            assert(chars@.take(i as int) =~= chars@);
        }
    }

    /// The collected text.
    pub fn finish(self) -> (out: String)
        ensures
            out@ == self.written(),
    {
        self.writer
    }
}

} // verus!
