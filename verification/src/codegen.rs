//! Text rules of the protobuf code generation: how generated files are named
//! as modules, which of them hold gRPC service code, and where a type
//! declaration in generated Rust source starts and ends.

use vstd::prelude::*;
use vstd::utf8::{encode_utf8, encode_utf8_decode_utf8};

verus! {

/// Whether `c` is an ASCII letter or digit.
pub open spec fn is_ascii_alphanumeric(c: char) -> bool {
    ('0' <= c && c <= '9') || ('a' <= c && c <= 'z') || ('A' <= c && c <= 'Z')
}

/// `c` with an ASCII capital letter turned into its small letter.
pub open spec fn ascii_lowercase(c: char) -> char {
    if 'A' <= c && c <= 'Z' {
        ((c as u32) + 32) as char
    } else {
        c
    }
}

/// The character that stands for `c` in a module name.
pub open spec fn module_name_char(c: char) -> char {
    if c == '_' || is_ascii_alphanumeric(c) {
        ascii_lowercase(c)
    } else {
        '_'
    }
}

/// The module name for a generated file's stem: every character kept as
/// an ASCII small letter, digit or underscore, and `generated_file` for an
/// empty stem.
pub open spec fn module_name(stem: Seq<char>) -> Seq<char> {
    if stem.len() == 0 {
        "generated_file"@
    } else {
        stem.map_values(|c: char| module_name_char(c))
    }
}

/// `char::is_ascii_alphanumeric`.
#[verifier::external_body]
fn char_is_ascii_alphanumeric(c: char) -> (b: bool)
    ensures
        b == is_ascii_alphanumeric(c),
{
    c.is_ascii_alphanumeric()
}

/// `char::to_ascii_lowercase`.
#[verifier::external_body]
fn char_to_ascii_lowercase(c: char) -> (l: char)
    ensures
        l == ascii_lowercase(c),
{
    c.to_ascii_lowercase()
}

/// `String::push`: appends `c` to `s`.
#[verifier::external_body]
fn push_char(s: &mut String, c: char)
    ensures
        final(s)@ == old(s)@.push(c),
{
    s.push(c)
}

/// Turns a generated file's stem into a Rust module name.
pub fn sanitize_module_name(stem: &str) -> (name: String)
    ensures
        name@ == module_name(stem@),
{
    let mut sanitized = String::new();
    let n = stem.unicode_len();
    let mut i: usize = 0;
    while i < n
        invariant
            n == stem@.len(),
            i <= n,
            sanitized@ =~= stem@.take(i as int).map_values(|c: char| module_name_char(c)),
        decreases n - i,
    {
        let ch = stem.get_char(i);
        if ch == '_' || char_is_ascii_alphanumeric(ch) {
            push_char(&mut sanitized, char_to_ascii_lowercase(ch));
        } else {
            push_char(&mut sanitized, '_');
        }
        proof {
            assert(stem@.take(i + 1) =~= stem@.take(i as int).push(ch));
        }
        i += 1;
    }
    assert(stem@.take(n as int) =~= stem@);
    if sanitized.as_str().is_empty() {
        String::from_str("generated_file")
    } else {
        sanitized
    }
}

/// Whether `pat` occurs in `s` as a run of consecutive characters.
pub open spec fn contains_text(s: Seq<char>, pat: Seq<char>) -> bool {
    exists|i: int| 0 <= i && i + pat.len() <= s.len() && #[trigger] s.subrange(i, i + pat.len()) == pat
}

/// Whether `s` begins with `prefix`.
pub open spec fn starts_with_text(s: Seq<char>, prefix: Seq<char>) -> bool {
    prefix.len() <= s.len() && s.take(prefix.len() as int) == prefix
}

/// Whether a generated file with this stem holds gRPC service code: its
/// stem, in ASCII small letters, contains `service`, `server` or `client`.
pub open spec fn is_service_module(stem: Seq<char>) -> bool {
    let lower = stem.map_values(|c: char| ascii_lowercase(c));
    contains_text(lower, "service"@) || contains_text(lower, "server"@) || contains_text(
        lower,
        "client"@,
    )
}

/// `str::to_ascii_lowercase`.
#[verifier::external_body]
fn str_to_ascii_lowercase(s: &str) -> (l: String)
    ensures
        l@ == s@.map_values(|c: char| ascii_lowercase(c)),
{
    s.to_ascii_lowercase()
}

/// `str::contains` with a string pattern.
#[verifier::external_body]
fn str_contains(s: &str, pat: &str) -> (b: bool)
    ensures
        b == contains_text(s@, pat@),
{
    s.contains(pat)
}

/// Whether the generated file with this stem holds gRPC service code
/// (service, server or client helpers).
pub fn looks_like_service_module(stem: &str) -> (b: bool)
    ensures
        b == is_service_module(stem@),
{
    let lower = str_to_ascii_lowercase(stem);
    str_contains(lower.as_str(), "service") || str_contains(lower.as_str(), "server")
        || str_contains(lower.as_str(), "client")
}

/// How a character changes the depth of curly braces: `{` opens, `}` closes.
pub open spec fn brace_step(c: char) -> int {
    if c == '{' {
        1
    } else if c == '}' {
        -1
    } else {
        0
    }
}

/// The net change of brace depth over a line: opening minus closing braces.
pub open spec fn brace_balance(s: Seq<char>) -> int
    decreases s.len(),
{
    if s.len() == 0 {
        0
    } else {
        brace_balance(s.drop_last()) + brace_step(s.last())
    }
}

/// The balance of braces over a text is at most its length either way.
pub proof fn lemma_brace_balance_bound(s: Seq<char>)
    ensures
        -s.len() <= brace_balance(s) <= s.len(),
    decreases s.len(),
{
    if s.len() > 0 {
        lemma_brace_balance_bound(s.drop_last());
    }
}

/// Computes the net change in brace depth for a single line of Rust source.
pub fn brace_delta(line: &str) -> (delta: i32)
    requires
        line@.len() <= i32::MAX,
    ensures
        delta == brace_balance(line@),
{
    let mut delta: i32 = 0;
    let n = line.unicode_len();
    let mut i: usize = 0;
    while i < n
        invariant
            n == line@.len(),
            n <= i32::MAX,
            i <= n,
            delta == brace_balance(line@.take(i as int)),
        decreases n - i,
    {
        let ch = line.get_char(i);
        proof {
            assert(line@.take(i + 1).drop_last() =~= line@.take(i as int));
            lemma_brace_balance_bound(line@.take(i as int));
        }
        if ch == '{' {
            delta += 1;
        } else if ch == '}' {
            delta -= 1;
        }
        i += 1;
    }
    assert(line@.take(n as int) =~= line@);
    delta
}

/// Total number of characters over all `lines`.
pub open spec fn total_len(lines: Seq<String>) -> int
    decreases lines.len(),
{
    if lines.len() == 0 {
        0
    } else {
        total_len(lines.drop_last()) + lines.last()@.len()
    }
}

/// The characters of the first `k` lines are no more than those of all.
proof fn lemma_total_len_take(lines: Seq<String>, k: int)
    requires
        0 <= k <= lines.len(),
    ensures
        0 <= total_len(lines.take(k)) <= total_len(lines),
        k < lines.len() ==> total_len(lines.take(k + 1)) == total_len(lines.take(k))
            + lines[k]@.len(),
    decreases lines.len(),
{
    if k < lines.len() {
        assert(lines.take(k + 1).drop_last() =~= lines.take(k));
    }
    if lines.len() > 0 {
        if k == lines.len() {
            assert(lines.take(k) =~= lines);
            lemma_total_len_take(lines.drop_last(), k - 1);
        } else {
            assert(lines.drop_last().take(k) =~= lines.take(k));
            lemma_total_len_take(lines.drop_last(), k);
        }
    }
}

/// The line where a declaration that starts at line `index`, with brace
/// depth `depth` after that line, ends: the first line after which the
/// depth is no longer positive, or the last line.
pub open spec fn declaration_end_from(lines: Seq<String>, index: int, depth: int) -> int
    decreases lines.len() - index,
{
    if depth > 0 && index + 1 < lines.len() {
        declaration_end_from(lines, index + 1, depth + brace_balance(lines[index + 1]@))
    } else {
        index
    }
}

/// Finds the ending line index (inclusive) for a type declaration that
/// starts at line `index`, by tracking curly brace depth.
pub fn find_declaration_end(lines: &[String], index: usize) -> (end: usize)
    requires
        index < lines@.len(),
        total_len(lines@) <= i32::MAX,
    ensures
        end == declaration_end_from(lines@, index as int, brace_balance(lines@[index as int]@)),
        index <= end < lines@.len(),
{
    let ghost start = index as int;
    let mut index = index;
    proof {
        lemma_total_len_take(lines@, start);
        lemma_total_len_take(lines@, start + 1);
        lemma_brace_balance_bound(lines@[start]@);
    }
    let mut depth = brace_delta(lines[index].as_str());
    let ghost start_depth = depth as int;
    while depth > 0 && index + 1 < lines.len()
        invariant
            start <= index < lines.len(),
            total_len(lines@) <= i32::MAX,
            -total_len(lines@.take(index + 1)) <= depth <= total_len(lines@.take(index + 1)),
            declaration_end_from(lines@, index as int, depth as int) == declaration_end_from(
                lines@,
                start,
                start_depth,
            ),
        decreases lines@.len() - index,
    {
        index += 1;
        proof {
            lemma_total_len_take(lines@, index as int);
            lemma_total_len_take(lines@, index + 1);
            lemma_brace_balance_bound(lines@[index as int]@);
        }
        depth += brace_delta(lines[index].as_str());
    }
    index
}

/// Whether `c` has the Unicode `White_Space` property.
pub open spec fn is_whitespace(c: char) -> bool {
    let u = c as u32;
    (0x9 <= u && u <= 0xd) || u == 0x20 || u == 0x85 || u == 0xa0 || u == 0x1680 || (0x2000 <= u
        && u <= 0x200a) || u == 0x2028 || u == 0x2029 || u == 0x202f || u == 0x205f || u == 0x3000
}

/// `s` without its leading whitespace.
pub open spec fn trim_start_text(s: Seq<char>) -> Seq<char>
    decreases s.len(),
{
    if s.len() > 0 && is_whitespace(s[0]) {
        trim_start_text(s.drop_first())
    } else {
        s
    }
}

/// `str::trim_start`.
#[verifier::external_body]
fn str_trim_start(s: &str) -> (t: &str)
    ensures
        t@ == trim_start_text(s@),
{
    s.trim_start()
}

/// `str::starts_with` with a string pattern.
#[verifier::external_body]
fn str_starts_with(s: &str, prefix: &str) -> (b: bool)
    ensures
        b == starts_with_text(s@, prefix@),
{
    s.starts_with(prefix)
}

/// Whether a line may stand just before a type declaration as part of it:
/// after its leading whitespace it is an attribute, a doc comment, or empty.
pub open spec fn is_declaration_preamble(line: Seq<char>) -> bool {
    let t = trim_start_text(line);
    starts_with_text(t, "#"@) || starts_with_text(t, "///"@) || starts_with_text(t, "//!"@)
        || t.len() == 0
}

/// The first line of the declaration whose header is at line `index`: the
/// header preceded by every attribute, doc comment or blank line just above.
pub open spec fn declaration_start(lines: Seq<String>, index: int) -> int
    decreases index,
{
    if index > 0 && is_declaration_preamble(lines[index - 1]@) {
        declaration_start(lines, index - 1)
    } else {
        index
    }
}

/// Finds the starting line index for a type declaration, including any
/// attributes, doc comments, or blank lines that precede it.
pub fn find_declaration_start(lines: &[String], index: usize) -> (start: usize)
    requires
        index <= lines@.len(),
    ensures
        start == declaration_start(lines@, index as int),
        start <= index,
{
    let ghost header = index as int;
    let mut index = index;
    while index > 0
        invariant
            index <= header <= lines@.len(),
            declaration_start(lines@, index as int) == declaration_start(lines@, header),
        ensures
            declaration_start(lines@, index as int) == index,
        decreases index,
    {
        let prev = str_trim_start(lines[index - 1].as_str());
        if str_starts_with(prev, "#") || str_starts_with(prev, "///") || str_starts_with(prev, "//!")
            || prev.is_empty() {
            index -= 1;
        } else {
            break;
        }
    }
    index
}

/// Whether `c` may stand in a Rust identifier of generated code.
pub open spec fn is_ident_char(c: char) -> bool {
    is_ascii_alphanumeric(c) || c == '_'
}

/// How many characters at the front of `s` may stand in an identifier.
pub open spec fn ident_prefix_len(s: Seq<char>) -> nat
    decreases s.len(),
{
    if s.len() > 0 && is_ident_char(s[0]) {
        1 + ident_prefix_len(s.drop_first())
    } else {
        0
    }
}

/// The identifier at the front of `s`: its longest prefix of ASCII letters,
/// digits and underscores.
pub open spec fn ident_prefix(s: Seq<char>) -> Seq<char> {
    s.take(ident_prefix_len(s) as int)
}

/// The identifier characters of `s` end where the first other character is.
proof fn lemma_ident_prefix_len(s: Seq<char>, i: int)
    requires
        0 <= i <= s.len(),
        forall|j: int| 0 <= j < i ==> is_ident_char(#[trigger] s[j]),
        i < s.len() ==> !is_ident_char(s[i]),
    ensures
        ident_prefix_len(s) == i,
    decreases i,
{
    if i > 0 {
        let t = s.drop_first();
        assert forall|j: int| 0 <= j < i - 1 implies is_ident_char(#[trigger] t[j]) by {
            assert(t[j] == s[j + 1]);
        }
        if i < s.len() {
            assert(t[i - 1] == s[i]);
        }
        lemma_ident_prefix_len(t, i - 1);
    }
}

/// `str::strip_prefix` with a string pattern.
#[verifier::external_body]
fn str_strip_prefix<'a>(s: &'a str, prefix: &str) -> (r: Option<&'a str>)
    ensures
        match r {
            Some(t) => starts_with_text(s@, prefix@) && t@ == s@.skip(prefix@.len() as int),
            None => !starts_with_text(s@, prefix@),
        },
{
    s.strip_prefix(prefix)
}

/// The leading identifier of `s`, as a new string.
fn leading_identifier(s: &str) -> (name: String)
    ensures
        name@ == ident_prefix(s@),
{
    let mut name = String::new();
    let n = s.unicode_len();
    let mut i: usize = 0;
    while i < n
        invariant
            n == s@.len(),
            i <= n,
            name@ == s@.take(i as int),
            forall|j: int| 0 <= j < i ==> is_ident_char(#[trigger] s@[j]),
        ensures
            name@ == s@.take(i as int),
            forall|j: int| 0 <= j < i ==> is_ident_char(#[trigger] s@[j]),
            i <= n,
            i < n ==> !is_ident_char(s@[i as int]),
        decreases n - i,
    {
        let ch = s.get_char(i);
        if ch == '_' || char_is_ascii_alphanumeric(ch) {
            push_char(&mut name, ch);
            proof {
                assert(s@.take(i + 1) =~= s@.take(i as int).push(ch));
            }
            i += 1;
        } else {
            break;
        }
    }
    proof {
        lemma_ident_prefix_len(s@, i as int);
    }
    name
}

/// The name of the public struct or enum that a (left-trimmed) line of
/// generated Rust declares: the identifier after `pub struct ` or
/// `pub enum `, which may be empty; `None` for any other line.
pub open spec fn declared_type_name(line: Seq<char>) -> Option<Seq<char>> {
    if starts_with_text(line, "pub struct "@) {
        Some(ident_prefix(line.skip("pub struct "@.len() as int)))
    } else if starts_with_text(line, "pub enum "@) {
        Some(ident_prefix(line.skip("pub enum "@.len() as int)))
    } else {
        None
    }
}

/// Reads the name that a line declares as a public struct or enum.
fn declared_name(line: &str) -> (res: Option<String>)
    ensures
        match res {
            Some(n) => declared_type_name(line@) == Some(n@),
            None => declared_type_name(line@) is None,
        },
{
    if let Some(rest) = str_strip_prefix(line, "pub struct ") {
        Some(leading_identifier(rest))
    } else if let Some(rest) = str_strip_prefix(line, "pub enum ") {
        Some(leading_identifier(rest))
    } else {
        None
    }
}

/// The texts of `names`.
pub open spec fn texts(names: Seq<String>) -> Seq<Seq<char>> {
    names.map_values(|n: String| n@)
}

/// Whether `name` is one of `names`.
fn contains_name(names: &[String], name: &String) -> (b: bool)
    ensures
        b == texts(names@).contains(name@),
{
    let mut i: usize = 0;
    while i < names.len()
        invariant
            i <= names@.len(),
            forall|j: int| 0 <= j < i ==> names@[j]@ != name@,
        decreases names@.len() - i,
    {
        if names[i] == *name {
            assert(texts(names@)[i as int] == name@);
            return true;
        }
        i += 1;
    }
    assert forall|j: int| 0 <= j < texts(names@).len() implies texts(names@)[j] != name@ by {
        assert(texts(names@)[j] == names@[j]@);
    }
    false
}

/// Matches a public struct or enum declaration against a known set of type
/// names: the declared name where the line declares one of `available_types`.
pub fn match_public_type_name(line: &str, available_types: &[String]) -> (res: Option<String>)
    ensures
        match declared_type_name(line@) {
            Some(n) => if texts(available_types@).contains(n) {
                res matches Some(r) && r@ == n
            } else {
                res is None
            },
            None => res is None,
        },
{
    match declared_name(line) {
        Some(name) => if contains_name(available_types, &name) {
            Some(name)
        } else {
            None
        },
        None => None,
    }
}

/// The non-empty names of the public structs and enums that `lines`
/// declare, in order.
pub open spec fn public_type_names_of(lines: Seq<String>) -> Seq<Seq<char>>
    decreases lines.len(),
{
    if lines.len() == 0 {
        Seq::empty()
    } else {
        let before = public_type_names_of(lines.drop_last());
        match declared_type_name(trim_start_text(lines.last()@)) {
            Some(n) => if n.len() > 0 {
                before.push(n)
            } else {
                before
            },
            None => before,
        }
    }
}

/// Extracts the names of the public structs and enums declared in the
/// lines of a generated Rust file.
pub fn public_type_names(lines: &[String]) -> (names: Vec<String>)
    ensures
        texts(names@) == public_type_names_of(lines@),
{
    let mut names: Vec<String> = Vec::new();
    let mut i: usize = 0;
    while i < lines.len()
        invariant
            i <= lines@.len(),
            texts(names@) == public_type_names_of(lines@.take(i as int)),
        decreases lines@.len() - i,
    {
        let trimmed = str_trim_start(lines[i].as_str());
        let ghost before = names@;
        match declared_name(trimmed) {
            Some(name) => {
                if !name.as_str().is_empty() {
                    names.push(name);
                }
            },
            None => {},
        }
        proof {
            assert(lines@.take(i + 1).drop_last() =~= lines@.take(i as int));
            assert(texts(names@) =~= public_type_names_of(lines@.take(i + 1)));
        }
        i += 1;
    }
    assert(lines@.take(lines@.len() as int) =~= lines@);
    names
}

/// The names joined with `, ` between them.
pub open spec fn joined_names(names: Seq<Seq<char>>) -> Seq<char>
    decreases names.len(),
{
    if names.len() == 0 {
        Seq::empty()
    } else if names.len() == 1 {
        names[0]
    } else {
        joined_names(names.drop_last()) + ", "@ + names.last()
    }
}

/// The `pub use super::...;` line that imports `names` from the parent
/// module: the bare name for one name, a braced list otherwise.
pub open spec fn pub_use_super_line(names: Seq<Seq<char>>) -> Seq<char> {
    if names.len() == 1 {
        "pub use super::"@ + names[0] + ";"@
    } else {
        "pub use super::{"@ + joined_names(names) + "};"@
    }
}

/// Formats a `pub use super` statement for the provided type names, in the
/// order given.
pub fn format_pub_use_super(names: &[String]) -> (line: String)
    ensures
        line@ == pub_use_super_line(texts(names@)),
{
    if names.len() == 1 {
        let mut line = String::from_str("pub use super::");
        line.append(names[0].as_str());
        line.append(";");
        line
    } else {
        let mut joined = String::new();
        let mut i: usize = 0;
        while i < names.len()
            invariant
                i <= names@.len(),
                joined@ == joined_names(texts(names@).take(i as int)),
            decreases names@.len() - i,
        {
            proof {
                assert(texts(names@).take(i + 1).drop_last() =~= texts(names@).take(i as int));
                assert(texts(names@).take(i + 1).last() == names@[i as int]@);
            }
            if i > 0 {
                joined.append(", ");
            } else {
                assert(joined@ =~= Seq::<char>::empty());
            }
            joined.append(names[i].as_str());
            i += 1;
        }
        assert(texts(names@).take(names@.len() as int) =~= texts(names@));
        let mut line = String::from_str("pub use super::{");
        line.append(joined.as_str());
        line.append("};");
        line
    }
}

/// Lexicographic order of byte strings: the first differing byte decides,
/// and a proper prefix comes first.
pub open spec fn bytes_less(x: Seq<u8>, y: Seq<u8>) -> bool
    decreases x.len(),
{
    if x.len() == 0 {
        y.len() > 0
    } else if y.len() == 0 {
        false
    } else if x[0] != y[0] {
        x[0] < y[0]
    } else {
        bytes_less(x.drop_first(), y.drop_first())
    }
}

/// The order of `String`: the lexicographic order of the UTF-8 bytes.
pub open spec fn text_less(a: Seq<char>, b: Seq<char>) -> bool {
    bytes_less(encode_utf8(a), encode_utf8(b))
}

/// Names sorted in strictly increasing order, hence each once.
pub open spec fn strictly_sorted(names: Seq<Seq<char>>) -> bool {
    forall|i: int, j: int| 0 <= i < j < names.len() ==> text_less(#[trigger] names[i], #[trigger] names[j])
}

/// No byte string comes before itself.
proof fn lemma_bytes_less_irreflexive(x: Seq<u8>)
    ensures
        !bytes_less(x, x),
    decreases x.len(),
{
    if x.len() > 0 {
        lemma_bytes_less_irreflexive(x.drop_first());
    }
}

/// The order of byte strings is transitive.
proof fn lemma_bytes_less_transitive(x: Seq<u8>, y: Seq<u8>, z: Seq<u8>)
    requires
        bytes_less(x, y),
        bytes_less(y, z),
    ensures
        bytes_less(x, z),
    decreases x.len(),
{
    if x.len() > 0 && y.len() > 0 && z.len() > 0 && x[0] == y[0] && y[0] == z[0] {
        lemma_bytes_less_transitive(x.drop_first(), y.drop_first(), z.drop_first());
    }
}

/// Of two different byte strings, one comes before the other.
proof fn lemma_bytes_less_total(x: Seq<u8>, y: Seq<u8>)
    requires
        x != y,
    ensures
        bytes_less(x, y) || bytes_less(y, x),
    decreases x.len(),
{
    if x.len() == 0 {
        assert(y.len() > 0) by {
            if y.len() == 0 {
                assert(x =~= y);
            }
        }
    } else if y.len() > 0 && x[0] == y[0] {
        if x.drop_first() == y.drop_first() {
            assert(x =~= seq![x[0]] + x.drop_first());
            assert(y =~= seq![y[0]] + y.drop_first());
        }
        lemma_bytes_less_total(x.drop_first(), y.drop_first());
    }
}

/// The order of texts is a strict total order.
proof fn lemma_text_less_order(a: Seq<char>, b: Seq<char>, c: Seq<char>)
    ensures
        !text_less(a, a),
        text_less(a, b) && text_less(b, c) ==> text_less(a, c),
        a != b ==> text_less(a, b) || text_less(b, a),
{
    lemma_bytes_less_irreflexive(encode_utf8(a));
    if text_less(a, b) && text_less(b, c) {
        lemma_bytes_less_transitive(encode_utf8(a), encode_utf8(b), encode_utf8(c));
    }
    if a != b {
        encode_utf8_decode_utf8(a);
        encode_utf8_decode_utf8(b);
        lemma_bytes_less_total(encode_utf8(a), encode_utf8(b));
    }
}

/// Whether `a` comes before `b` in the order of `String`.
fn name_less(a: &str, b: &str) -> (lt: bool)
    ensures
        lt == text_less(a@, b@),
{
    let x = a.as_bytes();
    let y = b.as_bytes();
    let mut i: usize = 0;
    assert(x@.skip(0) =~= x@ && y@.skip(0) =~= y@);
    while i < x.len() && i < y.len() && x[i] == y[i]
        invariant
            i <= x@.len(),
            i <= y@.len(),
            x@ == encode_utf8(a@),
            y@ == encode_utf8(b@),
            bytes_less(x@, y@) == bytes_less(x@.skip(i as int), y@.skip(i as int)),
        decreases x@.len() - i,
    {
        proof {
            assert(x@.skip(i as int).drop_first() =~= x@.skip(i + 1));
            assert(y@.skip(i as int).drop_first() =~= y@.skip(i + 1));
        }
        i += 1;
    }
    if i == x.len() {
        i < y.len()
    } else if i == y.len() {
        false
    } else {
        x[i] < y[i]
    }
}

/// Adds `name` to the strictly sorted `names`, where it is not there yet,
/// at the place that keeps them sorted.
fn insert_sorted_name(names: &mut Vec<String>, name: String)
    requires
        strictly_sorted(texts(old(names)@)),
    ensures
        strictly_sorted(texts(final(names)@)),
        texts(final(names)@).to_set() == texts(old(names)@).to_set().insert(name@),
{
    let ghost old_texts = texts(names@);
    let mut i: usize = 0;
    while i < names.len() && name_less(names[i].as_str(), name.as_str())
        invariant
            i <= names@.len(),
            texts(names@) == old_texts,
            strictly_sorted(old_texts),
            forall|j: int| 0 <= j < i ==> text_less(#[trigger] old_texts[j], name@),
        decreases names@.len() - i,
    {
        i += 1;
    }
    if i < names.len() && names[i] == name {
        assert(old_texts.to_set().insert(name@) =~= old_texts.to_set()) by {
            assert(old_texts[i as int] == name@);
        }
        return;
    }
    proof {
        if i < names@.len() {
            lemma_text_less_order(name@, old_texts[i as int], name@);
        }
    }
    names.insert(i, name);
    proof {
        let t = texts(names@);
        assert(t =~= old_texts.insert(i as int, name@));
        assert forall|a: int, b: int| 0 <= a < b < t.len() implies text_less(
            #[trigger] t[a],
            #[trigger] t[b],
        ) by {
            if b == i {
                assert(text_less(old_texts[a], name@));
            } else if a == i {
                assert(t[b] == old_texts[b - 1]);
                if b - 1 > i {
                    lemma_text_less_order(name@, old_texts[i as int], old_texts[b - 1]);
                }
            } else if a < i && b > i {
                assert(t[b] == old_texts[b - 1]);
            } else if a > i {
                assert(t[a] == old_texts[a - 1]);
                assert(t[b] == old_texts[b - 1]);
            }
        }
        assert(t.to_set() =~= old_texts.to_set().insert(name@)) by {
            assert forall|x: Seq<char>| t.to_set().contains(x) implies old_texts.to_set().insert(name@).contains(x) by {
                let k = choose|k: int| 0 <= k < t.len() && t[k] == x;
                if k < i {
                    assert(old_texts[k] == x);
                } else if k > i {
                    assert(old_texts[k - 1] == x);
                }
            }
            assert forall|x: Seq<char>| old_texts.to_set().insert(name@).contains(x) implies t.to_set().contains(x) by {
                if x == name@ {
                    assert(t[i as int] == x);
                } else {
                    let k = choose|k: int| 0 <= k < old_texts.len() && old_texts[k] == x;
                    if k < i {
                        assert(t[k] == x);
                    } else {
                        assert(t[k + 1] == x);
                    }
                }
            }
        }
    }
}

/// `s` without its trailing whitespace.
pub open spec fn trim_end_text(s: Seq<char>) -> Seq<char>
    decreases s.len(),
{
    if s.len() > 0 && is_whitespace(s.last()) {
        trim_end_text(s.drop_last())
    } else {
        s
    }
}

/// `s` without its leading and trailing whitespace.
pub open spec fn trim_text(s: Seq<char>) -> Seq<char> {
    trim_end_text(trim_start_text(s))
}

/// `s` without the copies of `c` at its end.
pub open spec fn trim_end_char(s: Seq<char>, c: char) -> Seq<char>
    decreases s.len(),
{
    if s.len() > 0 && s.last() == c {
        trim_end_char(s.drop_last(), c)
    } else {
        s
    }
}

/// `str::trim`.
#[verifier::external_body]
fn str_trim(s: &str) -> (t: &str)
    ensures
        t@ == trim_text(s@),
{
    s.trim()
}

/// `str::trim_end_matches` with a character pattern.
#[verifier::external_body]
fn str_trim_end_matches(s: &str, c: char) -> (t: &str)
    ensures
        t@ == trim_end_char(s@, c),
{
    s.trim_end_matches(c)
}

/// `str::ends_with` with a character pattern.
#[verifier::external_body]
fn str_ends_with(s: &str, c: char) -> (b: bool)
    ensures
        b == (s@.len() > 0 && s@.last() == c),
{
    s.ends_with(c)
}

/// The pieces of `s` between the occurrences of `sep`, as `str::split`
/// yields them (an empty text gives one empty piece).
pub open spec fn split_text(s: Seq<char>, sep: char) -> Seq<Seq<char>>
    decreases s.len(),
{
    if s.len() == 0 {
        seq![Seq::empty()]
    } else {
        let before = split_text(s.drop_last(), sep);
        if s.last() == sep {
            before.push(Seq::empty())
        } else {
            before.update(before.len() - 1, before.last().push(s.last()))
        }
    }
}

/// `str::split` always yields at least one piece.
proof fn lemma_split_text_nonempty(s: Seq<char>, sep: char)
    ensures
        split_text(s, sep).len() >= 1,
    decreases s.len(),
{
    if s.len() > 0 {
        lemma_split_text_nonempty(s.drop_last(), sep);
    }
}

/// The names that a list of pieces holds: each piece trimmed, empty ones
/// left out.
pub open spec fn listed_names(pieces: Seq<Seq<char>>) -> Set<Seq<char>> {
    Set::new(
        |n: Seq<char>|
            n.len() > 0 && exists|k: int| 0 <= k < pieces.len() && trim_text(#[trigger] pieces[k]) == n,
    )
}

/// The names that the text after `use super::` imports: within braces, the
/// comma-separated names; otherwise the whole text, where it is not empty.
/// Trailing semicolons and surrounding whitespace are dropped first.
pub open spec fn imported_names(rest: Seq<char>) -> Set<Seq<char>> {
    let existing = trim_text(trim_end_char(rest, ';'));
    if existing.len() >= 2 && existing[0] == '{' && existing.last() == '}' {
        listed_names(split_text(existing.subrange(1, existing.len() - 1), ','))
    } else if existing.len() > 0 {
        set![existing]
    } else {
        Set::empty()
    }
}

/// The names listed in pieces are those of all pieces but the last, and the
/// last one trimmed, where it is not empty.
proof fn lemma_listed_names_last(pieces: Seq<Seq<char>>)
    requires
        pieces.len() >= 1,
    ensures
        listed_names(pieces) == listed_names(pieces.drop_last()).union(
            if trim_text(pieces.last()).len() > 0 {
                set![trim_text(pieces.last())]
            } else {
                Set::empty()
            },
        ),
{
    let front = pieces.drop_last();
    let last = trim_text(pieces.last());
    let extra = if last.len() > 0 {
        set![last]
    } else {
        Set::empty()
    };
    assert forall|x: Seq<char>| #[trigger] listed_names(pieces).contains(x) implies listed_names(
        front,
    ).union(extra).contains(x) by {
        let k = choose|k: int| 0 <= k < pieces.len() && trim_text(#[trigger] pieces[k]) == x;
        if k < pieces.len() - 1 {
            assert(front[k] == pieces[k]);
        }
    }
    assert forall|x: Seq<char>| #[trigger] listed_names(front).union(extra).contains(x) implies listed_names(
        pieces,
    ).contains(x) by {
        if listed_names(front).contains(x) {
            let k = choose|k: int| 0 <= k < front.len() && trim_text(#[trigger] front[k]) == x;
            assert(pieces[k] == front[k]);
        } else {
            assert(trim_text(pieces[pieces.len() - 1]) == x);
        }
    }
    assert(listed_names(pieces) =~= listed_names(front).union(extra));
}

/// Adds to the strictly sorted `names` the names listed in `list`, separated
/// by commas.
fn insert_listed_names(names: &mut Vec<String>, list: &str)
    requires
        strictly_sorted(texts(old(names)@)),
    ensures
        strictly_sorted(texts(final(names)@)),
        texts(final(names)@).to_set() == texts(old(names)@).to_set() + listed_names(
            split_text(list@, ','),
        ),
{
    let ghost start = texts(names@).to_set();
    let n = list.unicode_len();
    let mut piece = String::new();
    let mut i: usize = 0;
    while i < n
        invariant
            n == list@.len(),
            i <= n,
            strictly_sorted(texts(names@)),
            split_text(list@.take(i as int), ',').len() >= 1,
            piece@ == split_text(list@.take(i as int), ',').last(),
            texts(names@).to_set() == start + listed_names(
                split_text(list@.take(i as int), ',').drop_last(),
            ),
        decreases n - i,
    {
        let ch = list.get_char(i);
        let ghost before = split_text(list@.take(i as int), ',');
        proof {
            assert(list@.take(i + 1).drop_last() =~= list@.take(i as int));
            assert(list@.take(i + 1).last() == ch);
        }
        if ch == ',' {
            let trimmed = str_trim(piece.as_str());
            if !trimmed.is_empty() {
                insert_sorted_name(names, trimmed.to_owned());
            }
            proof {
                let after = split_text(list@.take(i + 1), ',');
                assert(after.drop_last() =~= before);
                lemma_listed_names_last(before);
                assert(texts(names@).to_set() =~= start + listed_names(after.drop_last()));
            }
            piece = String::new();
        } else {
            push_char(&mut piece, ch);
            proof {
                let after = split_text(list@.take(i + 1), ',');
                assert(after.drop_last() =~= before.drop_last());
            }
        }
        i += 1;
    }
    proof {
        assert(list@.take(n as int) =~= list@);
    }
    let ghost pieces = split_text(list@, ',');
    let trimmed = str_trim(piece.as_str());
    if !trimmed.is_empty() {
        insert_sorted_name(names, trimmed.to_owned());
    }
    proof {
        lemma_split_text_nonempty(list@, ',');
        lemma_listed_names_last(pieces);
        assert(texts(names@).to_set() =~= start + listed_names(pieces));
    }
}

/// The text after `use super::` or `pub use super::` at the front of a
/// (left-trimmed) line.
pub open spec fn use_super_rest(t: Seq<char>) -> Option<Seq<char>> {
    if starts_with_text(t, "use super::"@) {
        Some(t.skip("use super::"@.len() as int))
    } else if starts_with_text(t, "pub use super::"@) {
        Some(t.skip("pub use super::"@.len() as int))
    } else {
        None
    }
}

/// The first line at or after `k` that imports from `super`.
pub open spec fn use_super_line_from(lines: Seq<Seq<char>>, k: int) -> Option<int>
    decreases lines.len() - k,
{
    if k < 0 || k >= lines.len() {
        None
    } else if use_super_rest(trim_start_text(lines[k])) is Some {
        Some(k)
    } else {
        use_super_line_from(lines, k + 1)
    }
}

/// Whether a line is a comment or blank, once left-trimmed.
pub open spec fn is_comment_or_blank(line: Seq<char>) -> bool {
    let t = trim_start_text(line);
    starts_with_text(t, "//"@) || t.len() == 0
}

/// The first line at or after `k` that is neither a comment nor blank.
pub open spec fn import_position_from(lines: Seq<Seq<char>>, k: int) -> int
    decreases lines.len() - k,
{
    if 0 <= k < lines.len() && is_comment_or_blank(lines[k]) {
        import_position_from(lines, k + 1)
    } else {
        k
    }
}

/// `lines` with `use_line` put after the leading comments and blank lines,
/// set apart from a comment above by a blank line and from what follows by
/// a blank line.
pub open spec fn with_import_line(lines: Seq<Seq<char>>, use_line: Seq<char>) -> Seq<Seq<char>> {
    let p0 = import_position_from(lines, 0);
    let blank_before = p0 > 0 && trim_text(lines[p0 - 1]).len() > 0;
    let l1 = if blank_before {
        lines.insert(p0, Seq::empty())
    } else {
        lines
    };
    let p = if blank_before {
        p0 + 1
    } else {
        p0
    };
    let l2 = l1.insert(p, use_line);
    if p + 1 >= l2.len() || trim_text(l2[p + 1]).len() > 0 {
        l2.insert(p + 1, Seq::empty())
    } else {
        l2
    }
}

/// The import position lies within the lines or just after them.
proof fn lemma_import_position_bounds(lines: Seq<Seq<char>>, k: int)
    requires
        0 <= k <= lines.len(),
    ensures
        k <= import_position_from(lines, k) <= lines.len(),
    decreases lines.len() - k,
{
    if k < lines.len() && is_comment_or_blank(lines[k]) {
        lemma_import_position_bounds(lines, k + 1);
    }
}

/// Reads the text after `use super::` or `pub use super::` of a left-trimmed
/// line.
fn use_super_text(trimmed: &str) -> (res: Option<&str>)
    ensures
        match res {
            Some(r) => use_super_rest(trimmed@) == Some(r@),
            None => use_super_rest(trimmed@) is None,
        },
{
    match str_strip_prefix(trimmed, "use super::") {
        Some(rest) => Some(rest),
        None => str_strip_prefix(trimmed, "pub use super::"),
    }
}

/// Whether a line is a comment or blank, once left-trimmed.
fn comment_or_blank(line: &str) -> (b: bool)
    ensures
        b == is_comment_or_blank(line@),
{
    let trimmed = str_trim_start(line);
    str_starts_with(trimmed, "//") || trimmed.is_empty()
}

/// Adds to the strictly sorted `names` the names that the text after
/// `use super::` imports.
fn merge_imported_names(names: &mut Vec<String>, rest: &str)
    requires
        strictly_sorted(texts(old(names)@)),
    ensures
        strictly_sorted(texts(final(names)@)),
        texts(final(names)@).to_set() == texts(old(names)@).to_set() + imported_names(rest@),
{
    let ghost old_names = texts(names@).to_set();
    let existing = str_trim(str_trim_end_matches(rest, ';'));
    if str_starts_with(existing, "{") && str_ends_with(existing, '}') {
        proof {
            reveal_strlit("{");
            assert("{"@ =~= seq!['{']);
            assert(existing@.take(1)[0] == existing@[0]);
            assert(existing@[0] == '{');
            assert(existing@.len() >= 2) by {
                if existing@.len() == 1 {
                    assert(existing@[0] == existing@.last());
                }
            }
        }
        let m = existing.unicode_len();
        let inner = existing.substring_char(1, m - 1);
        insert_listed_names(names, inner);
    } else if !existing.is_empty() {
        proof {
            reveal_strlit("{");
            assert("{"@ =~= seq!['{']);
            if existing@.len() >= 2 && existing@[0] == '{' && existing@.last() == '}' {
                assert(existing@.take(1) =~= seq!['{']);
            }
        }
        insert_sorted_name(names, existing.to_owned());
        proof {
            assert(old_names.insert(existing@) =~= old_names + set![existing@]);
        }
    } else {
        proof {
            assert(old_names + Set::<Seq<char>>::empty() =~= old_names);
        }
    }
}

/// Puts `use_line` after the leading comments and blank lines of `lines`,
/// with blank lines around it as [`with_import_line`] says.
#[verifier::rlimit(40)]
fn insert_import_line(lines: &mut Vec<String>, use_line: String)
    ensures
        texts(final(lines)@) == with_import_line(texts(old(lines)@), use_line@),
{
    let ghost old_lines = texts(lines@);
    let mut insert_index: usize = 0;
    proof {
        lemma_import_position_bounds(old_lines, 0);
    }
    while insert_index < lines.len() && comment_or_blank(lines[insert_index].as_str())
        invariant
            insert_index <= lines@.len(),
            texts(lines@) == old_lines,
            import_position_from(old_lines, 0) == import_position_from(
                old_lines,
                insert_index as int,
            ),
        decreases lines@.len() - insert_index,
    {
        proof {
            assert(old_lines[insert_index as int] == lines@[insert_index as int]@);
        }
        insert_index += 1;
    }
    proof {
        if insert_index < lines@.len() {
            assert(old_lines[insert_index as int] == lines@[insert_index as int]@);
        }
        if insert_index > 0 {
            assert(old_lines[insert_index - 1] == lines@[insert_index - 1]@);
        }
    }
    if insert_index > 0 && !str_trim(lines[insert_index - 1].as_str()).is_empty() {
        lines.insert(insert_index, String::new());
        assert(insert_index < lines.len());
        insert_index += 1;
    }
    let ghost l1 = texts(lines@);
    lines.insert(insert_index, use_line);
    assert(insert_index < lines.len());
    let ghost l2 = texts(lines@);
    proof {
        assert(l2 =~= l1.insert(insert_index as int, use_line@));
        if insert_index + 1 < l2.len() {
            assert(l2[insert_index + 1] == lines@[insert_index + 1]@);
        }
    }
    if insert_index + 1 >= lines.len() || !str_trim(lines[insert_index + 1].as_str()).is_empty() {
        lines.insert(insert_index + 1, String::new());
        proof {
            assert(texts(lines@) =~= l2.insert(insert_index + 1, Seq::<char>::empty()));
        }
    }
}

/// Inserts or updates a `pub use super::...;` statement with the type names
/// of `names` (kept sorted, each once). Where a line already imports from
/// `super`, the names it imports join `names` and that line is rewritten;
/// otherwise a new import line goes after the leading comments.
pub fn insert_super_import(lines: &mut Vec<String>, names: &mut Vec<String>)
    requires
        strictly_sorted(texts(old(names)@)),
    ensures
        old(names)@.len() == 0 ==> final(lines)@ == old(lines)@ && final(names)@ == old(names)@,
        old(names)@.len() > 0 ==> strictly_sorted(texts(final(names)@)) && match use_super_line_from(
            texts(old(lines)@),
            0,
        ) {
            Some(i) => texts(final(names)@).to_set() == texts(old(names)@).to_set()
                + imported_names(use_super_rest(trim_start_text(texts(old(lines)@)[i]))->Some_0)
                && texts(final(lines)@) == texts(old(lines)@).update(
                i,
                pub_use_super_line(texts(final(names)@)),
            ),
            None => final(names)@ == old(names)@ && texts(final(lines)@) == with_import_line(
                texts(old(lines)@),
                pub_use_super_line(texts(old(names)@)),
            ),
        },
{
    if names.is_empty() {
        return;
    }
    let ghost old_lines = texts(lines@);
    let mut k: usize = 0;
    while k < lines.len()
        invariant
            k <= lines@.len(),
            texts(lines@) == old_lines,
            old_lines == texts(old(lines)@),
            names@ == old(names)@,
            names@.len() > 0,
            strictly_sorted(texts(names@)),
            use_super_line_from(old_lines, 0) == use_super_line_from(old_lines, k as int),
        decreases lines@.len() - k,
    {
        let trimmed = str_trim_start(lines[k].as_str());
        proof {
            assert(old_lines[k as int] == lines@[k as int]@);
        }
        if let Some(rest) = use_super_text(trimmed) {
            proof {
                assert(use_super_line_from(old_lines, k as int) == Some(k as int));
                assert(use_super_rest(trim_start_text(old_lines[k as int])) == Some(rest@));
            }
            merge_imported_names(names, rest);
            let line = format_pub_use_super(names.as_slice());
            lines.set(k, line);
            proof {
                assert(texts(lines@) =~= old_lines.update(
                    k as int,
                    pub_use_super_line(texts(names@)),
                ));
            }
            return;
        }
        k += 1;
    }
    assert(use_super_line_from(old_lines, k as int) is None);
    let use_line = format_pub_use_super(names.as_slice());
    insert_import_line(lines, use_line);
}

/// The total length of lines one after the other is the sum of their totals.
proof fn lemma_total_len_concat(a: Seq<String>, b: Seq<String>)
    ensures
        total_len(a + b) == total_len(a) + total_len(b),
    decreases b.len(),
{
    if b.len() == 0 {
        assert(a + b =~= a);
    } else {
        assert((a + b).drop_last() =~= a + b.drop_last());
        lemma_total_len_concat(a, b.drop_last());
    }
}

/// The total length of any lines is not negative.
proof fn lemma_total_len_nonnegative(a: Seq<String>)
    ensures
        total_len(a) >= 0,
    decreases a.len(),
{
    if a.len() > 0 {
        lemma_total_len_nonnegative(a.drop_last());
    }
}

/// A declaration starts at or before its header line.
proof fn lemma_declaration_start_bounds(lines: Seq<String>, index: int)
    requires
        0 <= index,
    ensures
        0 <= declaration_start(lines, index) <= index,
    decreases index,
{
    if index > 0 && is_declaration_preamble(lines[index - 1]@) {
        lemma_declaration_start_bounds(lines, index - 1);
    }
}

/// A declaration ends at or after its header line, within the lines.
proof fn lemma_declaration_end_bounds(lines: Seq<String>, index: int, depth: int)
    requires
        0 <= index < lines.len(),
    ensures
        index <= declaration_end_from(lines, index, depth) < lines.len(),
    decreases lines.len() - index,
{
    if depth > 0 && index + 1 < lines.len() {
        lemma_declaration_end_bounds(lines, index + 1, depth + brace_balance(lines[index + 1]@));
    }
}

/// The name that a (left-trimmed) line declares, where it is one of
/// `available`.
pub open spec fn known_type_name(line: Seq<char>, available: Seq<Seq<char>>) -> Option<
    Seq<char>,
> {
    match declared_type_name(line) {
        Some(n) => if available.contains(n) {
            Some(n)
        } else {
            None
        },
        None => None,
    }
}

/// Scanning from line `index`, every declaration of a type in `available` is
/// cut out of `lines` together with its attributes and doc comments, and its
/// name noted after `removed`; the scan goes on where the declaration
/// started. Yields the remaining lines and the noted names.
pub open spec fn removal_from(
    lines: Seq<String>,
    index: int,
    removed: Seq<Seq<char>>,
    available: Seq<Seq<char>>,
) -> (Seq<String>, Seq<Seq<char>>)
    decreases lines.len() - index,
{
    if index < 0 || index >= lines.len() {
        (lines, removed)
    } else {
        match known_type_name(trim_start_text(lines[index]@), available) {
            Some(name) => {
                let s = declaration_start(lines, index);
                let e = declaration_end_from(lines, index, brace_balance(lines[index]@));
                if 0 <= s <= index <= e < lines.len() {
                    removal_from(
                        lines.subrange(0, s) + lines.subrange(e + 1, lines.len() as int),
                        s,
                        removed.push(name),
                        available,
                    )
                } else {
                    (lines, removed)
                }
            },
            None => removal_from(lines, index + 1, removed, available),
        }
    }
}

/// Scanning from a line before which no line declares a known type leaves
/// no line that declares one, and notes only known names.
proof fn lemma_removal_from_clean(
    lines: Seq<String>,
    index: int,
    removed: Seq<Seq<char>>,
    available: Seq<Seq<char>>,
)
    requires
        0 <= index,
        forall|i: int|
            0 <= i < index && i < lines.len() ==> known_type_name(
                trim_start_text(#[trigger] lines[i]@),
                available,
            ) is None,
        forall|k: int| 0 <= k < removed.len() ==> available.contains(#[trigger] removed[k]),
    ensures
        ({
            let (rest, names) = removal_from(lines, index, removed, available);
            &&& forall|i: int|
                0 <= i < rest.len() ==> known_type_name(
                    trim_start_text(#[trigger] rest[i]@),
                    available,
                ) is None
            &&& forall|k: int| 0 <= k < names.len() ==> available.contains(#[trigger] names[k])
        }),
    decreases lines.len() - index,
{
    if index < lines.len() {
        match known_type_name(trim_start_text(lines[index]@), available) {
            Some(name) => {
                let s = declaration_start(lines, index);
                let e = declaration_end_from(lines, index, brace_balance(lines[index]@));
                lemma_declaration_start_bounds(lines, index);
                lemma_declaration_end_bounds(lines, index, brace_balance(lines[index]@));
                let next = lines.subrange(0, s) + lines.subrange(e + 1, lines.len() as int);
                assert forall|i: int| 0 <= i < s && i < next.len() implies known_type_name(
                    trim_start_text(#[trigger] next[i]@),
                    available,
                ) is None by {
                    assert(next[i] == lines[i]);
                }
                let more = removed.push(name);
                assert forall|k: int| 0 <= k < more.len() implies available.contains(
                    #[trigger] more[k],
                ) by {
                    if k < removed.len() {
                        assert(more[k] == removed[k]);
                    }
                }
                lemma_removal_from_clean(next, s, more, available);
            },
            None => {
                lemma_removal_from_clean(lines, index + 1, removed, available);
            },
        }
    }
}

/// After the declarations of known types are removed, no remaining line
/// declares a known type, and every removed name is a known one.
pub proof fn lemma_no_known_declaration_left(lines: Seq<String>, available: Seq<Seq<char>>)
    ensures
        ({
            let (rest, names) = removal_from(lines, 0, Seq::empty(), available);
            &&& forall|i: int|
                0 <= i < rest.len() ==> known_type_name(
                    trim_start_text(#[trigger] rest[i]@),
                    available,
                ) is None
            &&& forall|k: int| 0 <= k < names.len() ==> available.contains(#[trigger] names[k])
        }),
{
    lemma_removal_from_clean(lines, 0, Seq::empty(), available);
}

/// Removes from `lines` every declaration of a type that `available_types`
/// names (with its attributes and doc comments), and yields the removed
/// names in the order met.
pub fn remove_known_declarations(lines: &mut Vec<String>, available_types: &[String]) -> (removed:
    Vec<String>)
    requires
        total_len(old(lines)@) <= i32::MAX,
    ensures
        (final(lines)@, texts(removed@)) == removal_from(
            old(lines)@,
            0,
            Seq::empty(),
            texts(available_types@),
        ),
{
    let ghost available = texts(available_types@);
    let mut removed: Vec<String> = Vec::new();
    let mut index: usize = 0;
    assert(texts(removed@) =~= Seq::<Seq<char>>::empty());
    while index < lines.len()
        invariant
            index <= lines@.len(),
            total_len(lines@) <= i32::MAX,
            available == texts(available_types@),
            removal_from(lines@, index as int, texts(removed@), available) == removal_from(
                old(lines)@,
                0,
                Seq::empty(),
                available,
            ),
        decreases lines@.len() - index,
    {
        let trimmed = str_trim_start(lines[index].as_str());
        if let Some(name) = match_public_type_name(trimmed, available_types) {
            let start = find_declaration_start(lines.as_slice(), index);
            let end = find_declaration_end(lines.as_slice(), index);
            let ghost before = lines@;
            proof {
                lemma_declaration_start_bounds(before, index as int);
                assert(known_type_name(trim_start_text(before[index as int]@), available) == Some(
                    name@,
                ));
                assert(before =~= before.subrange(0, start as int) + before.subrange(
                    start as int,
                    end + 1,
                ) + before.subrange(end + 1, before.len() as int));
                lemma_total_len_concat(
                    before.subrange(0, start as int) + before.subrange(start as int, end + 1),
                    before.subrange(end + 1, before.len() as int),
                );
                lemma_total_len_concat(
                    before.subrange(0, start as int),
                    before.subrange(start as int, end + 1),
                );
                lemma_total_len_concat(
                    before.subrange(0, start as int),
                    before.subrange(end + 1, before.len() as int),
                );
                lemma_total_len_nonnegative(before.subrange(start as int, end + 1));
            }
            let mut tail = lines.split_off(end + 1);
            lines.truncate(start);
            lines.append(&mut tail);
            let ghost removed_before = removed@;
            removed.push(name);
            proof {
                assert(texts(removed@) =~= texts(removed_before).push(name@)) by {
                    assert(removed@.drop_last() =~= removed_before);
                }
                assert(lines@ =~= before.subrange(0, start as int) + before.subrange(
                    end + 1,
                    before.len() as int,
                ));
            }
            index = start;
        } else {
            proof {
                assert(known_type_name(trim_start_text(lines@[index as int]@), available) is None);
            }
            index += 1;
        }
    }
    removed
}

/// The names of `set` in increasing order.
pub open spec fn sorted_names(set: Set<Seq<char>>) -> Seq<Seq<char>> {
    choose|s: Seq<Seq<char>>| strictly_sorted(s) && s.to_set() == set
}

/// Two strictly sorted lists of the same names are the same list.
proof fn lemma_strictly_sorted_unique(a: Seq<Seq<char>>, b: Seq<Seq<char>>)
    requires
        strictly_sorted(a),
        strictly_sorted(b),
        a.to_set() == b.to_set(),
    ensures
        a == b,
    decreases a.len(),
{
    if a.len() == 0 {
        if b.len() > 0 {
            assert(b.to_set().contains(b[0]));
        }
        assert(a =~= b);
    } else {
        assert(b.to_set().contains(a[0]));
        assert(b.len() > 0);
        let j = choose|j: int| 0 <= j < b.len() && b[j] == a[0];
        assert(a.to_set().contains(b[0]));
        let i = choose|i: int| 0 <= i < a.len() && a[i] == b[0];
        if j > 0 {
            assert(text_less(b[0], b[j]));
            if i > 0 {
                assert(text_less(a[0], a[i]));
                lemma_text_less_order(a[0], a[i], a[0]);
            } else {
                lemma_text_less_order(a[0], a[0], a[0]);
            }
        }
        let ta = a.drop_first();
        let tb = b.drop_first();
        assert(strictly_sorted(ta)) by {
            assert forall|p: int, q: int| 0 <= p < q < ta.len() implies text_less(#[trigger] ta[p], #[trigger] ta[q]) by {
                assert(ta[p] == a[p + 1] && ta[q] == a[q + 1]);
            }
        }
        assert(strictly_sorted(tb)) by {
            assert forall|p: int, q: int| 0 <= p < q < tb.len() implies text_less(#[trigger] tb[p], #[trigger] tb[q]) by {
                assert(tb[p] == b[p + 1] && tb[q] == b[q + 1]);
            }
        }
        assert(ta.to_set() =~= tb.to_set()) by {
            assert forall|x: Seq<char>| ta.to_set().contains(x) implies tb.to_set().contains(x) by {
                let p = choose|p: int| 0 <= p < ta.len() && ta[p] == x;
                assert(a[p + 1] == x);
                assert(text_less(a[0], a[p + 1]));
                lemma_text_less_order(a[0], a[0], a[0]);
                assert(b.to_set().contains(x));
                let q = choose|q: int| 0 <= q < b.len() && b[q] == x;
                if q == 0 {
                    assert(false);
                }
                assert(tb[q - 1] == x);
            }
            assert forall|x: Seq<char>| tb.to_set().contains(x) implies ta.to_set().contains(x) by {
                let q = choose|q: int| 0 <= q < tb.len() && tb[q] == x;
                assert(b[q + 1] == x);
                assert(text_less(b[0], b[q + 1]));
                lemma_text_less_order(b[0], b[0], b[0]);
                assert(a.to_set().contains(x));
                let p = choose|p: int| 0 <= p < a.len() && a[p] == x;
                if p == 0 {
                    assert(false);
                }
                assert(ta[p - 1] == x);
            }
        }
        lemma_strictly_sorted_unique(ta, tb);
        assert(a =~= seq![a[0]] + ta);
        assert(b =~= seq![b[0]] + tb);
    }
}

/// A strictly sorted list of names is the sorted list of its set.
proof fn lemma_sorted_names_of(s: Seq<Seq<char>>)
    requires
        strictly_sorted(s),
    ensures
        sorted_names(s.to_set()) == s,
{
    let c = sorted_names(s.to_set());
    assert(strictly_sorted(c) && c.to_set() == s.to_set());
    lemma_strictly_sorted_unique(c, s);
}

/// `lines` joined with a line break between each two.
pub open spec fn joined_lines(lines: Seq<Seq<char>>) -> Seq<char>
    decreases lines.len(),
{
    if lines.len() == 0 {
        Seq::empty()
    } else if lines.len() == 1 {
        lines[0]
    } else {
        joined_lines(lines.drop_last()) + seq!['\n'] + lines.last()
    }
}

/// The text of a source file made of `lines`, ending with a line break.
pub open spec fn source_text(lines: Seq<Seq<char>>) -> Seq<char> {
    let joined = joined_lines(lines);
    if joined.len() > 0 && joined.last() == '\n' {
        joined
    } else {
        joined.push('\n')
    }
}

/// The lines of a service file once the names `names` (sorted) are imported
/// from `super`: an existing `use super::` line is rewritten to import them
/// along with the names it already imported; otherwise a new import line is
/// added.
pub open spec fn with_super_import(lines: Seq<Seq<char>>, names: Seq<Seq<char>>) -> Seq<Seq<char>> {
    match use_super_line_from(lines, 0) {
        Some(i) => lines.update(
            i,
            pub_use_super_line(
                sorted_names(
                    names.to_set() + imported_names(use_super_rest(trim_start_text(lines[i]))->Some_0),
                ),
            ),
        ),
        None => with_import_line(lines, pub_use_super_line(names)),
    }
}

/// Joins `lines` into a source text that ends with a line break.
fn join_source(lines: &[String]) -> (text: String)
    ensures
        text@ == source_text(texts(lines@)),
{
    let mut joined = String::new();
    let mut i: usize = 0;
    while i < lines.len()
        invariant
            i <= lines@.len(),
            joined@ == joined_lines(texts(lines@).take(i as int)),
        decreases lines@.len() - i,
    {
        proof {
            assert(texts(lines@).take(i + 1).drop_last() =~= texts(lines@).take(i as int));
            assert(texts(lines@).take(i + 1).last() == lines@[i as int]@);
        }
        if i > 0 {
            joined.append("\n");
            proof {
                reveal_strlit("\n");
                assert("\n"@ =~= seq!['\n']);
            }
        } else {
            assert(joined@ =~= Seq::<char>::empty());
        }
        joined.append(lines[i].as_str());
        i += 1;
    }
    assert(texts(lines@).take(lines@.len() as int) =~= texts(lines@));
    if !str_ends_with(joined.as_str(), '\n') {
        push_char(&mut joined, '\n');
    }
    joined
}

/// Removes from the lines of a generated service file the declarations of
/// the types that `available_types` names, and imports those types from the
/// parent module instead. Yields the new source text, or `None` where there
/// is nothing to change.
pub fn deduplicate_service_source(lines: Vec<String>, available_types: &[String]) -> (res: Option<
    String,
>)
    requires
        total_len(lines@) <= i32::MAX,
    ensures
        ({
            let (rest, removed) = removal_from(lines@, 0, Seq::empty(), texts(available_types@));
            match res {
                None => available_types@.len() == 0 || removed.len() == 0,
                Some(text) => available_types@.len() > 0 && removed.len() > 0 && text@ == source_text(
                    with_super_import(texts(rest), sorted_names(removed.to_set())),
                ),
            }
        }),
{
    if available_types.is_empty() {
        return None;
    }
    let mut lines = lines;
    let removed = remove_known_declarations(&mut lines, available_types);
    if removed.is_empty() {
        return None;
    }
    let mut unique: Vec<String> = Vec::new();
    let mut i: usize = 0;
    assert(texts(unique@).to_set() =~= texts(removed@).take(0).to_set());
    while i < removed.len()
        invariant
            i <= removed@.len(),
            strictly_sorted(texts(unique@)),
            texts(unique@).to_set() == texts(removed@).take(i as int).to_set(),
        decreases removed@.len() - i,
    {
        let name = removed[i].clone();
        insert_sorted_name(&mut unique, name);
        proof {
            assert(texts(removed@).take(i + 1) =~= texts(removed@).take(i as int).push(
                removed@[i as int]@,
            ));
            let before = texts(removed@).take(i as int);
            let after = texts(removed@).take(i + 1);
            assert forall|x: Seq<char>| after.to_set().contains(x) implies before.to_set().insert(
                removed@[i as int]@,
            ).contains(x) by {
                let k = choose|k: int| 0 <= k < after.len() && after[k] == x;
                if k < i {
                    assert(before[k] == x);
                }
            }
            assert forall|x: Seq<char>| before.to_set().insert(removed@[i as int]@).contains(
                x,
            ) implies after.to_set().contains(x) by {
                if x == removed@[i as int]@ {
                    assert(after[i as int] == x);
                } else {
                    let k = choose|k: int| 0 <= k < before.len() && before[k] == x;
                    assert(after[k] == x);
                }
            }
            assert(after.to_set() =~= before.to_set().insert(removed@[i as int]@));
        }
        i += 1;
    }
    proof {
        assert(texts(removed@).take(removed@.len() as int) =~= texts(removed@));
        lemma_sorted_names_of(texts(unique@));
        assert(texts(removed@)[0] == removed@[0]@);
        assert(texts(removed@).to_set().contains(removed@[0]@));
        assert(texts(unique@).to_set().contains(removed@[0]@));
        assert(unique@.len() > 0);
    }
    let ghost rest = texts(lines@);
    let ghost names0 = texts(unique@);
    insert_super_import(&mut lines, &mut unique);
    proof {
        match use_super_line_from(rest, 0) {
            Some(k) => {
                lemma_sorted_names_of(texts(unique@));
            },
            None => {},
        }
        assert(texts(lines@) == with_super_import(rest, names0));
    }
    Some(join_source(lines.as_slice()))
}

/// A module name has one character for each character of a non-empty stem:
/// an ASCII capital becomes the small letter 32 code points above it, a small
/// letter, digit or underscore stays, and any other character becomes `_`.
/// So no ASCII capital is left in the name.
pub proof fn lemma_module_name_per_character(stem: Seq<char>)
    requires
        stem.len() > 0,
    ensures
        module_name(stem).len() == stem.len(),
        forall|i: int|
            0 <= i < stem.len() ==> {
                let c = #[trigger] stem[i];
                let o = module_name(stem)[i];
                &&& ('A' <= c && c <= 'Z') ==> o as u32 == c as u32 + 32
                &&& (('a' <= c && c <= 'z') || ('0' <= c && c <= '9') || c == '_') ==> o == c
                &&& !(('A' <= c && c <= 'Z') || ('a' <= c && c <= 'z') || ('0' <= c && c <= '9')
                    || c == '_') ==> o == '_'
                &&& !('A' <= o && o <= 'Z')
            },
{
    assert forall|i: int| 0 <= i < stem.len() implies {
        let c = #[trigger] stem[i];
        let o = module_name(stem)[i];
        &&& ('A' <= c && c <= 'Z') ==> o as u32 == c as u32 + 32
        &&& (('a' <= c && c <= 'z') || ('0' <= c && c <= '9') || c == '_') ==> o == c
        &&& !(('A' <= c && c <= 'Z') || ('a' <= c && c <= 'z') || ('0' <= c && c <= '9') || c
            == '_') ==> o == '_'
        &&& !('A' <= o && o <= 'Z')
    } by {
        let c = stem[i];
        let o = module_name(stem)[i];
        assert(o == module_name_char(c));
        if 'A' <= c && c <= 'Z' {
            let u = (c as u32) + 32;
            assert(0x61 <= u && u <= 0x7a);
            assert(o == u as char);
            assert((u as char) as u32 == u);
        }
    }
}

/// `s` with every ASCII capital turned into its small letter.
pub open spec fn lowercase_text(s: Seq<char>) -> Seq<char> {
    Seq::new(s.len(), |k: int| ascii_lowercase(s[k]))
}

/// A stem names a service module exactly when, once its ASCII capitals are
/// lowered, `service`, `server` or `client` occurs in it at some position.
pub proof fn lemma_service_module_words(stem: Seq<char>)
    ensures
        is_service_module(stem) <==> exists|i: int|
            {
                ||| 0 <= i && i + 7 <= stem.len() && #[trigger] lowercase_text(stem).subrange(
                    i,
                    i + 7,
                ) == "service"@
                ||| 0 <= i && i + 6 <= stem.len() && lowercase_text(stem).subrange(i, i + 6)
                    == "server"@
                ||| 0 <= i && i + 6 <= stem.len() && lowercase_text(stem).subrange(i, i + 6)
                    == "client"@
            },
{
    let lower = stem.map_values(|c: char| ascii_lowercase(c));
    let low = lowercase_text(stem);
    assert(low =~= lower);
    reveal_strlit("service");
    reveal_strlit("server");
    reveal_strlit("client");
    assert("service"@.len() == 7 && "server"@.len() == 6 && "client"@.len() == 6);
    if contains_text(lower, "service"@) {
        let i = choose|i: int|
            0 <= i && i + "service"@.len() <= lower.len() && #[trigger] lower.subrange(
                i,
                i + "service"@.len(),
            ) == "service"@;
        assert(low.subrange(i, i + 7) == "service"@);
    }
    if contains_text(lower, "server"@) {
        let i = choose|i: int|
            0 <= i && i + "server"@.len() <= lower.len() && #[trigger] lower.subrange(
                i,
                i + "server"@.len(),
            ) == "server"@;
        assert(low.subrange(i, i + 6) == "server"@);
        assert(low.subrange(i, i + 7) == low.subrange(i, i + 7));
    }
    if contains_text(lower, "client"@) {
        let i = choose|i: int|
            0 <= i && i + "client"@.len() <= lower.len() && #[trigger] lower.subrange(
                i,
                i + "client"@.len(),
            ) == "client"@;
        assert(low.subrange(i, i + 6) == "client"@);
        assert(low.subrange(i, i + 7) == low.subrange(i, i + 7));
    }
    if exists|i: int|
        {
            ||| 0 <= i && i + 7 <= stem.len() && #[trigger] low.subrange(i, i + 7) == "service"@
            ||| 0 <= i && i + 6 <= stem.len() && low.subrange(i, i + 6) == "server"@
            ||| 0 <= i && i + 6 <= stem.len() && low.subrange(i, i + 6) == "client"@
        } {
        let i = choose|i: int|
            {
                ||| 0 <= i && i + 7 <= stem.len() && #[trigger] low.subrange(i, i + 7)
                    == "service"@
                ||| 0 <= i && i + 6 <= stem.len() && low.subrange(i, i + 6) == "server"@
                ||| 0 <= i && i + 6 <= stem.len() && low.subrange(i, i + 6) == "client"@
            };
        if 0 <= i && i + 7 <= stem.len() && low.subrange(i, i + 7) == "service"@ {
            assert(lower.subrange(i, i + "service"@.len()) == "service"@);
        } else if 0 <= i && i + 6 <= stem.len() && low.subrange(i, i + 6) == "server"@ {
            assert(lower.subrange(i, i + "server"@.len()) == "server"@);
        } else {
            assert(lower.subrange(i, i + "client"@.len()) == "client"@);
        }
    }
}

/// The brace depth after lines `start` to `k` of `lines`, from depth 0.
pub open spec fn brace_depth(lines: Seq<String>, start: int, k: int) -> int
    decreases k - start,
{
    if k < start {
        0
    } else if k == start {
        brace_balance(lines[k]@)
    } else {
        brace_depth(lines, start, k - 1) + brace_balance(lines[k]@)
    }
}

/// From a line whose running depth is the one given, the end is where the
/// running depth is first no longer positive, or the last line.
proof fn lemma_declaration_end_depth(lines: Seq<String>, start: int, index: int)
    requires
        0 <= start <= index < lines.len(),
        forall|k: int| start <= k < index ==> brace_depth(lines, start, k) > 0,
    ensures
        ({
            let e = declaration_end_from(lines, index, brace_depth(lines, start, index));
            &&& index <= e < lines.len()
            &&& forall|k: int| start <= k < e ==> brace_depth(lines, start, k) > 0
            &&& e + 1 == lines.len() || brace_depth(lines, start, e) <= 0
        }),
    decreases lines.len() - index,
{
    let d = brace_depth(lines, start, index);
    if d > 0 && index + 1 < lines.len() {
        assert(brace_depth(lines, start, index + 1) == d + brace_balance(lines[index + 1]@));
        lemma_declaration_end_depth(lines, start, index + 1);
    }
}

/// A declaration whose header is at line `index` ends at the first line where
/// the brace depth counted from the header's line returns to zero or below,
/// or at the last line when it never does: the depth stays positive on every
/// line before the end.
pub proof fn lemma_declaration_end_closes_braces(lines: Seq<String>, index: int)
    requires
        0 <= index < lines.len(),
    ensures
        ({
            let e = declaration_end_from(lines, index, brace_balance(lines[index]@));
            &&& index <= e < lines.len()
            &&& forall|k: int| index <= k < e ==> brace_depth(lines, index, k) > 0
            &&& e + 1 == lines.len() || brace_depth(lines, index, e) <= 0
        }),
{
    assert(brace_depth(lines, index, index) == brace_balance(lines[index]@));
    lemma_declaration_end_depth(lines, index, index);
}

} // verus!
