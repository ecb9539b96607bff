//! The commands sent to the worker, one JSON object per line.

use vstd::prelude::*;
use vstd::string::StringExecFns;

verus! {

/// The numeric code point of a character.
pub open spec fn code(c: char) -> int {
    c as u32 as int
}

/// Lower-case hexadecimal digit for a value below sixteen.
pub open spec fn hex_digit(n: int) -> char {
    seq!['0', '1', '2', '3', '4', '5', '6', '7', '8', '9', 'a', 'b', 'c', 'd', 'e', 'f'][n]
}

/// How one character is written inside a JSON string literal: quote and
/// backslash are escaped, control characters take their short escape where
/// JSON has one and a `\u00XX` escape otherwise, and every other character
/// stands as it is.
pub open spec fn escape_char(c: char) -> Seq<char> {
    if c == '"' {
        seq!['\\', '"']
    } else if c == '\\' {
        seq!['\\', '\\']
    } else if c == '\u{8}' {
        seq!['\\', 'b']
    } else if c == '\t' {
        seq!['\\', 't']
    } else if c == '\n' {
        seq!['\\', 'n']
    } else if c == '\u{c}' {
        seq!['\\', 'f']
    } else if c == '\r' {
        seq!['\\', 'r']
    } else if code(c) < 0x20 {
        seq!['\\', 'u', '0', '0', hex_digit(code(c) / 16), hex_digit(code(c) % 16)]
    } else {
        seq![c]
    }
}

/// The escaped body of a JSON string literal.
pub open spec fn escape(s: Seq<char>) -> Seq<char>
    decreases s.len(),
{
    if s.len() == 0 {
        Seq::empty()
    } else {
        escape_char(s[0]) + escape(s.drop_first())
    }
}

/// A JSON string literal holding `s`.
pub open spec fn json_string(s: Seq<char>) -> Seq<char> {
    seq!['"'] + escape(s) + seq!['"']
}

#[verifier::external_type_specification]
#[verifier::external_body]
pub struct ExJsonError(serde_json::Error);

/// Relies on `serde_json::to_string` applied to a `str`: it writes the string
/// as a JSON string literal, escaping by serde_json's `ESCAPE` table and
/// lower-case hex digits, and cannot fail, since it writes into a `Vec`.
#[verifier::external_body]
fn json_string_literal(s: &str) -> (r: Result<String, serde_json::Error>)
    ensures
        r is Ok,
        r->Ok_0@ == json_string(s@),
{
    serde_json::to_string(s)
}

/// Text of a string literal holding `s`, written through serde_json.
fn quote(s: &str) -> (r: String)
    ensures
        r@ == json_string(s@),
{
    match json_string_literal(s) {
        Ok(t) => t,
        Err(_) => {
            proof {
                assert(false);
            }
            String::new()
        },
    }
}

/// Value of a hexadecimal digit of either case, or -1 for any other character.
pub open spec fn hex_value(c: char) -> int {
    if code('0') <= code(c) <= code('9') {
        code(c) - code('0')
    } else if code('a') <= code(c) <= code('f') {
        code(c) - code('a') + 10
    } else if code('A') <= code(c) <= code('F') {
        code(c) - code('A') + 10
    } else {
        -1
    }
}

/// Value of four hexadecimal digits, or -1 where one of them is no digit.
pub open spec fn hex4(s: Seq<char>) -> int {
    if hex_value(s[0]) < 0 || hex_value(s[1]) < 0 || hex_value(s[2]) < 0 || hex_value(s[3]) < 0 {
        -1
    } else {
        ((hex_value(s[0]) * 16 + hex_value(s[1])) * 16 + hex_value(s[2])) * 16 + hex_value(s[3])
    }
}

/// The character with code point `v`, where there is one.
pub open spec fn char_of(v: int) -> Option<char> {
    if exists|c: char| code(c) == v {
        Some(choose|c: char| code(c) == v)
    } else {
        None
    }
}

/// The character that a two-character escape `\e` stands for.
pub open spec fn simple_unescape(e: char) -> Option<char> {
    if e == '"' {
        Some('"')
    } else if e == '\\' {
        Some('\\')
    } else if e == '/' {
        Some('/')
    } else if e == 'b' {
        Some('\u{8}')
    } else if e == 'f' {
        Some('\u{c}')
    } else if e == 'n' {
        Some('\n')
    } else if e == 'r' {
        Some('\r')
    } else if e == 't' {
        Some('\t')
    } else {
        None
    }
}

/// Puts `c` in front of the text of a decoded literal.
pub open spec fn with_first(c: char, r: Option<(Seq<char>, Seq<char>)>) -> Option<(Seq<char>, Seq<char>)> {
    match r {
        Some((t, rest)) => Some((seq![c] + t, rest)),
        None => None,
    }
}

/// Reads a JSON string literal from just after its opening quote: the text it
/// holds, and what follows its closing quote. `None` where the literal is
/// unterminated, holds a raw control character or an unknown escape, or has a
/// `\u` escape that names no character (a UTF-16 surrogate, which this reader
/// does not pair).
pub open spec fn decode_string(s: Seq<char>) -> Option<(Seq<char>, Seq<char>)>
    decreases s.len(),
{
    if s.len() == 0 {
        None
    } else if s[0] == '"' {
        Some((Seq::empty(), s.drop_first()))
    } else if s[0] == '\\' {
        if s.len() >= 6 && s[1] == 'u' {
            let v = hex4(s.subrange(2, 6));
            if v >= 0 {
                match char_of(v) {
                    Some(c) => with_first(c, decode_string(s.skip(6))),
                    None => None,
                }
            } else {
                None
            }
        } else if s.len() >= 2 && s[1] != 'u' {
            match simple_unescape(s[1]) {
                Some(c) => with_first(c, decode_string(s.skip(2))),
                None => None,
            }
        } else {
            None
        }
    } else if code(s[0]) < 0x20 {
        None
    } else {
        with_first(s[0], decode_string(s.skip(1)))
    }
}

proof fn lemma_code_injective(a: char, b: char)
    ensures
        code(a) == code(b) ==> a == b,
{
}

proof fn lemma_hex_digit(n: int)
    requires
        0 <= n < 16,
    ensures
        hex_value(hex_digit(n)) == n,
        hex_digit(n) != '\n',
{
    let d = seq!['0', '1', '2', '3', '4', '5', '6', '7', '8', '9', 'a', 'b', 'c', 'd', 'e', 'f'];
    assert(hex_digit(n) == d[n]);
    if n == 0 { assert(d[0] == '0'); }
    else if n == 1 { assert(d[1] == '1'); }
    else if n == 2 { assert(d[2] == '2'); }
    else if n == 3 { assert(d[3] == '3'); }
    else if n == 4 { assert(d[4] == '4'); }
    else if n == 5 { assert(d[5] == '5'); }
    else if n == 6 { assert(d[6] == '6'); }
    else if n == 7 { assert(d[7] == '7'); }
    else if n == 8 { assert(d[8] == '8'); }
    else if n == 9 { assert(d[9] == '9'); }
    else if n == 10 { assert(d[10] == 'a'); }
    else if n == 11 { assert(d[11] == 'b'); }
    else if n == 12 { assert(d[12] == 'c'); }
    else if n == 13 { assert(d[13] == 'd'); }
    else if n == 14 { assert(d[14] == 'e'); }
    else { assert(d[15] == 'f'); }
}

proof fn lemma_escape_char_single_line(c: char)
    ensures
        !escape_char(c).contains('\n'),
{
    let e = escape_char(c);
    if code(c) < 0x20 && c != '\u{8}' && c != '\t' && c != '\n' && c != '\u{c}' && c != '\r' {
        lemma_hex_digit(code(c) / 16);
        lemma_hex_digit(code(c) % 16);
    }
    assert forall|i: int| 0 <= i < e.len() implies e[i] != '\n' by {}
}

proof fn lemma_escape_single_line(s: Seq<char>)
    ensures
        !escape(s).contains('\n'),
    decreases s.len(),
{
    if s.len() > 0 {
        lemma_escape_char_single_line(s[0]);
        lemma_escape_single_line(s.drop_first());
        let a = escape_char(s[0]);
        let b = escape(s.drop_first());
        assert forall|i: int| 0 <= i < (a + b).len() implies (a + b)[i] != '\n' by {
            if i < a.len() {
                assert((a + b)[i] == a[i]);
            } else {
                assert((a + b)[i] == b[i - a.len()]);
            }
        }
    }
}

proof fn lemma_decode_escaped_char(c: char, tail: Seq<char>)
    ensures
        decode_string(escape_char(c) + tail) == with_first(c, decode_string(tail)),
{
    let s = escape_char(c) + tail;
    if c == '"' || c == '\\' || c == '\u{8}' || c == '\t' || c == '\n' || c == '\u{c}' || c == '\r' {
        assert(s.skip(2) =~= tail);
    } else if code(c) < 0x20 {
        let hi = code(c) / 16;
        let lo = code(c) % 16;
        lemma_hex_digit(hi);
        lemma_hex_digit(lo);
        assert(s.subrange(2, 6) =~= seq!['0', '0', hex_digit(hi), hex_digit(lo)]);
        assert(hex4(s.subrange(2, 6)) == code(c));
        assert(exists|x: char| code(x) == code(c));
        let d = choose|x: char| code(x) == code(c);
        assert(code(d) == code(c));
        lemma_code_injective(d, c);
        assert(char_of(code(c)) == Some(c));
        assert(s.skip(6) =~= tail);
    } else {
        assert(s.skip(1) =~= tail);
    }
}

proof fn lemma_decode_escaped(p: Seq<char>, rest: Seq<char>)
    ensures
        decode_string(escape(p) + seq!['"'] + rest) == Some((p, rest)),
    decreases p.len(),
{
    if p.len() == 0 {
        let s = escape(p) + seq!['"'] + rest;
        assert(s =~= seq!['"'] + rest);
        assert(s.drop_first() =~= rest);
    } else {
        let tail = escape(p.drop_first()) + seq!['"'] + rest;
        assert(escape(p) + seq!['"'] + rest =~= escape_char(p[0]) + tail);
        lemma_decode_escaped_char(p[0], tail);
        lemma_decode_escaped(p.drop_first(), rest);
        assert(seq![p[0]] + p.drop_first() =~= p);
    }
}

/// Encoding a directory path and decoding the line again gives the path back.
/// The line holds no line break; it opens with the `add_directory` type and
/// the `payload.path` key, followed by a string literal that decodes to
/// exactly `path`, after which only the two closing braces remain.
pub proof fn lemma_add_directory_round_trip(path: Seq<char>)
    ensures
        !add_directory_line(path).contains('\n'),
        ({
            let line = add_directory_line(path);
            let head = "{\"type\":\"add_directory\",\"payload\":{\"path\":"@;
            &&& line.subrange(0, head.len() as int) == head
            &&& line[head.len() as int] == '"'
            &&& decode_string(line.skip(head.len() as int + 1)) == Some((path, "}}"@))
        }),
{
    reveal_strlit("{\"type\":\"add_directory\",\"payload\":{\"path\":");
    reveal_strlit("}}");
    let head = "{\"type\":\"add_directory\",\"payload\":{\"path\":"@;
    let tail = "}}"@;
    let line = add_directory_line(path);
    lemma_escape_single_line(path);
    assert(line =~= head + (seq!['"'] + escape(path) + seq!['"'] + tail));
    assert forall|i: int| 0 <= i < line.len() implies line[i] != '\n' by {
        if i < head.len() {
        } else if i == head.len() {
        } else if i < head.len() + 1 + escape(path).len() {
            assert(line[i] == escape(path)[i - head.len() - 1]);
        } else {
        }
    }
    assert(line.subrange(0, head.len() as int) =~= head);
    assert(line.skip(head.len() as int + 1) =~= escape(path) + seq!['"'] + tail);
    lemma_decode_escaped(path, tail);
}

/// A request to the worker.
#[derive(Debug)]
pub enum Command {
    AddDirectory { path: String },
    RemoveDirectory { id: String },
    GetDirectories,
}

/// The line that encodes a request to watch the directory `path`.
pub open spec fn add_directory_line(path: Seq<char>) -> Seq<char> {
    "{\"type\":\"add_directory\",\"payload\":{\"path\":"@ + json_string(path) + "}}"@
}

/// The line that encodes a request to stop watching the directory `id`.
pub open spec fn remove_directory_line(id: Seq<char>) -> Seq<char> {
    "{\"type\":\"remove_directory\",\"payload\":{\"id\":"@ + json_string(id) + "}}"@
}

/// The line that asks for the list of watched directories.
pub open spec fn get_directories_line() -> Seq<char> {
    "{\"type\":\"get_directories\"}"@
}

impl Command {
    /// The single JSON line that stands for this command.
    pub open spec fn line(self) -> Seq<char> {
        match self {
            Command::AddDirectory { path } => add_directory_line(path@),
            Command::RemoveDirectory { id } => remove_directory_line(id@),
            Command::GetDirectories => get_directories_line(),
        }
    }

    /// Writes the command as one JSON line, without the line terminator.
    pub fn encode(&self) -> (r: String)
        ensures
            r@ == self.line(),
    {
        match self {
            Command::AddDirectory { path } => encode_add_directory(path.as_str()),
            Command::RemoveDirectory { id } => encode_remove_directory(id.as_str()),
            Command::GetDirectories => encode_list_directories(),
        }
    }
}

/// Encodes a request to watch the directory `path`.
pub fn encode_add_directory(path: &str) -> (r: String)
    ensures
        r@ == add_directory_line(path@),
{
    let mut line = String::from_str("{\"type\":\"add_directory\",\"payload\":{\"path\":");
    let quoted = quote(path);
    line.append(quoted.as_str());
    line.append("}}");
    line
}

/// Encodes a request to stop watching the directory with identifier `id`.
pub fn encode_remove_directory(id: &str) -> (r: String)
    ensures
        r@ == remove_directory_line(id@),
{
    let mut line = String::from_str("{\"type\":\"remove_directory\",\"payload\":{\"id\":");
    let quoted = quote(id);
    line.append(quoted.as_str());
    line.append("}}");
    line
}

/// Encodes a request for the current list of watched directories.
pub fn encode_list_directories() -> (r: String)
    ensures
        r@ == get_directories_line(),
{
    String::from_str("{\"type\":\"get_directories\"}")
}

proof fn lemma_concat_single_line(a: Seq<char>, b: Seq<char>)
    requires
        !a.contains('\n'),
        !b.contains('\n'),
    ensures
        !(a + b).contains('\n'),
{
    assert forall|i: int| 0 <= i < (a + b).len() implies (a + b)[i] != '\n' by {
        if i < a.len() {
            assert((a + b)[i] == a[i]);
        } else {
            assert((a + b)[i] == b[i - a.len()]);
        }
    }
}

proof fn lemma_json_string_single_line(s: Seq<char>)
    ensures
        !json_string(s).contains('\n'),
{
    lemma_escape_single_line(s);
    assert(!seq!['"'].contains('\n')) by {
        assert forall|i: int| 0 <= i < seq!['"'].len() implies seq!['"'][i] != '\n' by {}
    }
    lemma_concat_single_line(seq!['"'], escape(s));
    lemma_concat_single_line(seq!['"'] + escape(s), seq!['"']);
}

/// Every command is written as a single line: its text holds no newline, so
/// the newline that ends it on the worker's input is the only one.
pub proof fn lemma_command_single_line(c: Command)
    ensures
        !c.line().contains('\n'),
{
    reveal_strlit("{\"type\":\"add_directory\",\"payload\":{\"path\":");
    reveal_strlit("{\"type\":\"remove_directory\",\"payload\":{\"id\":");
    reveal_strlit("{\"type\":\"get_directories\"}");
    reveal_strlit("}}");
    let close = "}}"@;
    assert(!close.contains('\n')) by {
        assert forall|i: int| 0 <= i < close.len() implies close[i] != '\n' by {}
    }
    match c {
        Command::AddDirectory { path } => {
            let head = "{\"type\":\"add_directory\",\"payload\":{\"path\":"@;
            assert(!head.contains('\n')) by {
                assert forall|i: int| 0 <= i < head.len() implies head[i] != '\n' by {}
            }
            lemma_json_string_single_line(path@);
            lemma_concat_single_line(head, json_string(path@));
            lemma_concat_single_line(head + json_string(path@), close);
        },
        Command::RemoveDirectory { id } => {
            let head = "{\"type\":\"remove_directory\",\"payload\":{\"id\":"@;
            assert(!head.contains('\n')) by {
                assert forall|i: int| 0 <= i < head.len() implies head[i] != '\n' by {}
            }
            lemma_json_string_single_line(id@);
            lemma_concat_single_line(head, json_string(id@));
            lemma_concat_single_line(head + json_string(id@), close);
        },
        Command::GetDirectories => {
            let line = "{\"type\":\"get_directories\"}"@;
            assert forall|i: int| 0 <= i < line.len() implies line[i] != '\n' by {}
        },
    }
}

} // verus!
