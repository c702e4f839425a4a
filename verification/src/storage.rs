//! The plain-text format that saved conversations are stored in.
//!
//! A conversation file is plain text: a few `# key: value` headers carrying
//! the model, followed by one raw turn description per line. This makes saved
//! conversations self-contained; they restore their own model and prices.

use vstd::prelude::*;
use crate::format::{decimal, decimal_string};
use crate::number::digits_value;
use crate::app::strings_view;
use crate::lines::{is_trimmed, lemma_trim_trimmed, lemma_trimmed_trim};
use crate::text::{
    all_ws, chars_of, concat, has_prefix, is_digit, is_ws, lemma_lines_nonempty,
    lemma_lines_plain_suffix, lemma_trim_of, lemma_trim_split,
    lines, split_lines, string_of, trim, trim_chars, trim_end, trim_start, views,
};

verus! {

/// Whether `c` is alphabetic or numeric in Unicode: what `char::is_alphanumeric`
/// returns for it.
pub uninterp spec fn unicode_alphanumeric(c: char) -> bool;

/// Whether `c` is one of the ASCII letters or digits.
pub open spec fn ascii_alphanumeric(c: char) -> bool {
    ('a' <= c <= 'z') || ('A' <= c <= 'Z') || ('0' <= c <= '9')
}

/// Whether `c` is alphabetic or numeric: among ASCII characters exactly the
/// letters and digits; beyond ASCII, what Unicode says.
pub open spec fn alphanumeric(c: char) -> bool {
    if c <= '\u{7f}' {
        ascii_alphanumeric(c)
    } else {
        unicode_alphanumeric(c)
    }
}

/// Calls `char::is_alphanumeric`. Its contract says that among ASCII
/// characters exactly the letters and digits are alphanumeric (they are the
/// ASCII characters of the Unicode categories `Alphabetic` and numeric);
/// for every other character it only says that the answer is
/// [`unicode_alphanumeric`] of the character, the same for the same
/// character, and leaves unsaid which characters those are.
#[verifier::external_body]
fn is_alphanumeric(c: char) -> (b: bool)
    ensures
        c <= '\u{7f}' ==> (b == ascii_alphanumeric(c)),
        c > '\u{7f}' ==> (b == unicode_alphanumeric(c)),
{
    c.is_alphanumeric()
}

/// The word used for a file name that sanitizes to nothing.
pub open spec fn fallback_name() -> Seq<char> {
    "conversation"@
}

/// `name` with every character that is not alphanumeric (by `alnum`, one
/// flag per character), `-` or `_` replaced by `_`; "conversation" when
/// that leaves nothing.
pub open spec fn sanitized(name: Seq<char>, alnum: Seq<bool>) -> Seq<char> {
    if name.len() == 0 {
        fallback_name()
    } else {
        Seq::new(
            name.len(),
            |i: int|
                if alnum[i] || name[i] == '-' || name[i] == '_' {
                    name[i]
                } else {
                    '_'
                },
        )
    }
}

/// A sanitized name is never empty: an empty name becomes "conversation",
/// any other keeps its length with each character kept or replaced by `_`.
pub proof fn sanitized_never_empty(name: Seq<char>, alnum: Seq<bool>)
    requires
        alnum.len() == name.len(),
    ensures
        sanitized(name, alnum).len() > 0,
        name.len() > 0 ==> sanitized(name, alnum).len() == name.len(),
{
    reveal_strlit("conversation");
}

/// The file-name form of a conversation name (see [`sanitize`]).
pub open spec fn sanitize_of(name: Seq<char>) -> Seq<char> {
    sanitized(name, name.map_values(|c: char| alphanumeric(c)))
}

/// A sanitized name is a safe file name and is its own sanitized form: it
/// is never empty, holds no `/`, `\` or `.` (so `<dir>/<name>.txt` names
/// a file in `<dir>`), and sanitizing it again changes nothing.
pub proof fn sanitized_is_safe_and_stable(name: Seq<char>)
    ensures
        sanitize_of(name).len() > 0,
        forall|i: int|
            0 <= i < sanitize_of(name).len() ==> #[trigger] sanitize_of(name)[i] != '/'
                && sanitize_of(name)[i] != '\\' && sanitize_of(name)[i] != '.',
        sanitize_of(sanitize_of(name)) == sanitize_of(name),
{
    reveal_strlit("conversation");
    let r = sanitize_of(name);
    let fl = fallback_name();
    assert(fl =~= seq!['c', 'o', 'n', 'v', 'e', 'r', 's', 'a', 't', 'i', 'o', 'n']);
    assert forall|i: int| 0 <= i < r.len() implies (alphanumeric(r[i]) || r[i] == '-' || r[i] == '_')
        && r[i] != '/' && r[i] != '\\' && r[i] != '.' by {
        if name.len() > 0 {
            assert(name.map_values(|c: char| alphanumeric(c))[i] == alphanumeric(name[i]));
        }
    }
    assert(sanitize_of(r) =~= r);
}

/// The file-name form of a conversation name, given which of its
/// characters are alphanumeric.
pub fn sanitize_with(name: &str, alnum: &Vec<bool>) -> (s: String)
    requires
        alnum@.len() == name@.len(),
    ensures
        s@ == sanitized(name@, alnum@),
{
    let chars = chars_of(name);
    if chars.len() == 0 {
        return "conversation".to_owned();
    }
    let mut out: Vec<char> = Vec::new();
    let mut i: usize = 0;
    while i < chars.len()
        invariant
            i <= chars@.len(),
            chars@ == name@,
            alnum@.len() == name@.len(),
            out@ == sanitized(name@, alnum@).take(i as int),
            name@.len() > 0,
        decreases chars@.len() - i,
    {
        let c = chars[i];
        let kept = if alnum[i] || c == '-' || c == '_' {
            c
        } else {
            '_'
        };
        out.push(kept);
        assert(sanitized(name@, alnum@).take(i + 1) == sanitized(name@, alnum@).take(
            i as int,
        ).push(kept));
        i += 1;
    }
    assert(sanitized(name@, alnum@).take(chars@.len() as int) == sanitized(name@, alnum@));
    string_of(&out)
}

/// The file-name form of a conversation name: every character that is not
/// alphanumeric, `-` or `_` becomes `_`, and an empty name becomes
/// "conversation".
pub fn sanitize(name: &str) -> (s: String)
    ensures
        s@ == sanitize_of(name@),
{
    let chars = chars_of(name);
    let mut alnum: Vec<bool> = Vec::new();
    let mut i: usize = 0;
    while i < chars.len()
        invariant
            i <= chars@.len(),
            chars@ == name@,
            alnum@ == name@.map_values(|c: char| alphanumeric(c)).take(i as int),
        decreases chars@.len() - i,
    {
        alnum.push(is_alphanumeric(chars[i]));
        assert(name@.map_values(|c: char| alphanumeric(c)).take(i + 1) == name@.map_values(
            |c: char| alphanumeric(c),
        ).take(i as int).push(alphanumeric(chars@[i as int])));
        i += 1;
    }
    assert(name@.map_values(|c: char| alphanumeric(c)).take(chars@.len() as int)
        == name@.map_values(|c: char| alphanumeric(c)));
    sanitize_with(name, &alnum)
}

/// What `u64::from_str` makes of `s`: an optional `+` followed by one or
/// more ASCII digits whose value fits in a `u64`; `None` otherwise.
pub open spec fn parse_u64_of(s: Seq<char>) -> Option<u64> {
    let d = if s.len() > 0 && s[0] == '+' {
        s.skip(1)
    } else {
        s
    };
    if d.len() == 0 || !crate::number::all_digits(d) || digits_value(d) > u64::MAX {
        None
    } else {
        Some(digits_value(d) as u64)
    }
}

/// Reads a whole number the way `u64::from_str` does.
pub fn parse_u64(s: &[char]) -> (r: Option<u64>)
    ensures
        r == parse_u64_of(s@),
{
    let start: usize = if s.len() > 0 && s[0] == '+' {
        1
    } else {
        0
    };
    let d = &s[start..s.len()];
    assert(d@ == if s@.len() > 0 && s@[0] == '+' {
        s@.skip(1)
    } else {
        s@
    });
    if d.len() == 0 {
        return None;
    }
    let mut acc: u64 = 0;
    let mut i: usize = 0;
    while i < d.len()
        invariant
            i <= d@.len(),
            d@ == (if s@.len() > 0 && s@[0] == '+' {
                s@.skip(1)
            } else {
                s@
            }),
            d@.len() > 0,
            crate::number::all_digits(d@.take(i as int)),
            acc == digits_value(d@.take(i as int)),
        decreases d@.len() - i,
    {
        let c = d[i];
        let ghost pre = d@.take(i as int);
        assert(d@.take(i + 1).drop_last() == pre);
        assert(d@.take(i + 1).last() == c);
        if !('0' <= c && c <= '9') {
            assert(!crate::number::all_digits(d@)) by {
                assert(!is_digit(d@[i as int]));
            }
            return None;
        }
        let digit = ((c as u32) - 48) as u64;
        match acc.checked_mul(10) {
            Some(m) => match m.checked_add(digit) {
                Some(v) => acc = v,
                None => {
                    proof {
                        lemma_digits_value_prefix(d@, i + 1);
                    }
                    return None;
                },
            },
            None => {
                proof {
                    lemma_digits_value_prefix(d@, i + 1);
                }
                return None;
            },
        }
        assert(crate::number::all_digits(d@.take(i + 1))) by {
            assert forall|k: int| 0 <= k < i + 1 implies is_digit(#[trigger] d@.take(i + 1)[k]) by {
                if k < i {
                    assert(d@.take(i + 1)[k] == pre[k]);
                }
            }
        }
        i += 1;
    }
    assert(d@.take(d@.len() as int) == d@);
    Some(acc)
}

/// A longer run of digits is worth at least as much as its prefix, when
/// the run is all digits.
proof fn lemma_digits_value_prefix(d: Seq<char>, i: int)
    requires
        0 <= i <= d.len(),
    ensures
        crate::number::all_digits(d) ==> digits_value(d) >= digits_value(d.take(i)),
    decreases d.len(),
{
    if i == d.len() {
        assert(d.take(i) == d);
    } else if crate::number::all_digits(d) {
        let p = d.drop_last();
        assert(p.take(i) == d.take(i));
        assert(crate::number::all_digits(p)) by {
            assert forall|k: int| 0 <= k < p.len() implies is_digit(#[trigger] p[k]) by {
                assert(p[k] == d[k]);
            }
        }
        lemma_digits_value_prefix(p, i);
        assert(is_digit(d[d.len() - 1]));
        lemma_digits_nonneg(p);
    }
}

/// A run of digits is worth zero or more.
proof fn lemma_digits_nonneg(d: Seq<char>)
    requires
        crate::number::all_digits(d),
    ensures
        digits_value(d) >= 0,
    decreases d.len(),
{
    if d.len() > 0 {
        let p = d.drop_last();
        assert(crate::number::all_digits(p)) by {
            assert forall|k: int| 0 <= k < p.len() implies is_digit(#[trigger] p[k]) by {
                assert(p[k] == d[k]);
            }
        }
        lemma_digits_nonneg(p);
        assert(is_digit(d[d.len() - 1]));
    }
}

/// A conversation listed from disk: its name, its model (name and context
/// window; the prices stay with the caller), and its lines.
#[derive(Debug)]
pub struct SavedConversation {
    pub name: String,
    pub model: crate::model::ModelInfo,
    pub turns: Vec<String>,
}

/// A saved conversation as plain values.
pub struct SavedRecord {
    pub name: Seq<char>,
    pub model: crate::model::ModelRecord,
    pub turns: Seq<Seq<char>>,
}

impl View for SavedConversation {
    type V = SavedRecord;

    open spec fn view(&self) -> SavedRecord {
        SavedRecord { name: self.name@, model: self.model@, turns: strings_view(self.turns@) }
    }
}

/// A conversation read back from its file: the name, the model's name and
/// price texts (each price as the text after its header, parsed by the
/// front end), the context window, and the turn lines.
#[derive(Debug)]
pub struct ConversationFile {
    pub name: String,
    pub model_name: String,
    pub input: Option<String>,
    pub output: Option<String>,
    pub cached: Option<String>,
    pub context: u64,
    pub turns: Vec<String>,
}

/// A conversation file's contents as plain values.
pub struct FileRecord {
    pub name: Seq<char>,
    pub model_name: Seq<char>,
    pub input: Option<Seq<char>>,
    pub output: Option<Seq<char>>,
    pub cached: Option<Seq<char>>,
    pub context: u64,
    pub turns: Seq<Seq<char>>,
}

impl View for ConversationFile {
    type V = FileRecord;

    open spec fn view(&self) -> FileRecord {
        FileRecord {
            name: self.name@,
            model_name: self.model_name@,
            input: crate::app::opt_view(self.input),
            output: crate::app::opt_view(self.output),
            cached: crate::app::opt_view(self.cached),
            context: self.context,
            turns: strings_view(self.turns@),
        }
    }
}

/// The defaults a file starts from: the file's stem as the name, a model
/// called "Custom" with no prices, and a million-token context window.
pub open spec fn start_record(stem: Seq<char>) -> FileRecord {
    FileRecord {
        name: stem,
        model_name: "Custom"@,
        input: None,
        output: None,
        cached: None,
        context: 1_000_000,
        turns: Seq::empty(),
    }
}

/// The header prefix `# <key>:`.
pub open spec fn header(key: Seq<char>) -> Seq<char> {
    seq!['#', ' '] + key + seq![':']
}

/// The trimmed text after a header prefix.
pub open spec fn header_value(l: Seq<char>, key: Seq<char>) -> Seq<char> {
    trim(l.skip(header(key).len() as int))
}

/// What one line of a conversation file contributes: blank lines are
/// skipped; `# name:`, `# model:`, `# input:`, `# output:`, `# cached:`
/// and `# context:` headers set their value (a context that does not read
/// as a number falls back to a million); other `#` lines are ignored; any
/// other line is a turn line.
pub open spec fn read_step(r: FileRecord, raw: Seq<char>) -> FileRecord {
    let l = trim(raw);
    if l.len() == 0 {
        r
    } else if header("name"@).is_prefix_of(l) {
        FileRecord { name: header_value(l, "name"@), ..r }
    } else if header("model"@).is_prefix_of(l) {
        FileRecord { model_name: header_value(l, "model"@), ..r }
    } else if header("input"@).is_prefix_of(l) {
        FileRecord { input: Some(header_value(l, "input"@)), ..r }
    } else if header("output"@).is_prefix_of(l) {
        FileRecord { output: Some(header_value(l, "output"@)), ..r }
    } else if header("cached"@).is_prefix_of(l) {
        FileRecord { cached: Some(header_value(l, "cached"@)), ..r }
    } else if header("context"@).is_prefix_of(l) {
        FileRecord {
            context: match parse_u64_of(header_value(l, "context"@)) {
                Some(n) => n,
                None => 1_000_000,
            },
            ..r
        }
    } else if l[0] == '#' {
        r
    } else {
        FileRecord { turns: r.turns.push(l), ..r }
    }
}

/// The lines of a file read one after another.
pub open spec fn read_lines(r: FileRecord, ls: Seq<Seq<char>>) -> FileRecord
    decreases ls.len(),
{
    if ls.len() == 0 {
        r
    } else {
        read_step(read_lines(r, ls.drop_last()), ls.last())
    }
}

/// What a conversation file holds, given the file's stem.
pub open spec fn read_conversation_of(content: Seq<char>, stem: Seq<char>) -> FileRecord {
    read_lines(start_record(stem), lines(content))
}

/// The header line `# <key>: <value>`.
pub open spec fn header_line(key: Seq<char>, value: Seq<char>) -> Seq<char> {
    header(key) + seq![' '] + value + seq!['\n']
}

/// The turn lines, each followed by a newline.
pub open spec fn turn_block(turns: Seq<Seq<char>>) -> Seq<char>
    decreases turns.len(),
{
    if turns.len() == 0 {
        Seq::empty()
    } else {
        turn_block(turns.drop_last()) + turns.last() + seq!['\n']
    }
}

/// The text of a conversation file: the name, model and price headers,
/// then one turn line per line.
pub open spec fn conversation_text_of(
    name: Seq<char>,
    model_name: Seq<char>,
    input: Seq<char>,
    output: Seq<char>,
    cached: Seq<char>,
    context: u64,
    turns: Seq<Seq<char>>,
) -> Seq<char> {
    header_line("name"@, name) + header_line("model"@, model_name) + header_line("input"@, input)
        + header_line("output"@, output) + header_line("cached"@, cached) + header_line(
        "context"@,
        decimal(context as nat),
    ) + turn_block(turns)
}

/// The header line `# <key>: <value>`.
fn write_header(out: &str, key: &str, value: &str) -> (r: String)
    ensures
        r@ == out@ + header_line(key@, value@),
{
    let a = concat(out, "# ");
    let b = concat(a.as_str(), key);
    let c = concat(b.as_str(), ": ");
    let d = concat(c.as_str(), value);
    let r = concat(d.as_str(), "\n");
    proof {
        reveal_strlit("# ");
        reveal_strlit(": ");
        reveal_strlit("\n");
        assert(r@ =~= out@ + header_line(key@, value@));
    }
    r
}

/// The text of a conversation file (see [`conversation_text_of`]).
pub fn conversation_text(
    name: &str,
    model_name: &str,
    input: &str,
    output: &str,
    cached: &str,
    context: u64,
    turns: &Vec<String>,
) -> (s: String)
    ensures
        s@ == conversation_text_of(
            name@,
            model_name@,
            input@,
            output@,
            cached@,
            context,
            strings_view(turns@),
        ),
{
    let s = write_header("", "name", name);
    let s = write_header(s.as_str(), "model", model_name);
    let s = write_header(s.as_str(), "input", input);
    let s = write_header(s.as_str(), "output", output);
    let s = write_header(s.as_str(), "cached", cached);
    let ctx = decimal_string(context);
    let mut s = write_header(s.as_str(), "context", ctx.as_str());
    proof {
        reveal_strlit("");
    }
    let ghost head = s@;
    let ghost all = strings_view(turns@);
    let mut i: usize = 0;
    assert(all.take(0) =~= Seq::<Seq<char>>::empty());
    assert(head =~= head + turn_block(all.take(0)));
    while i < turns.len()
        invariant
            i <= turns@.len(),
            all == strings_view(turns@),
            s@ == head + turn_block(all.take(i as int)),
        decreases turns@.len() - i,
    {
        assert(all.take(i + 1).drop_last() == all.take(i as int));
        assert(all.take(i + 1).last() == turns@[i as int]@);
        let a = concat(s.as_str(), turns[i].as_str());
        s = concat(a.as_str(), "\n");
        proof {
            reveal_strlit("\n");
        }
        i += 1;
    }
    assert(all.take(turns@.len() as int) == all);
    s
}

/// Whether `l` begins with the header prefix for `key` (`key` given as
/// characters).
fn starts_with_header(l: &[char], key: &[char]) -> (b: bool)
    ensures
        b == header(key@).is_prefix_of(l@),
{
    let mut h: Vec<char> = vec!['#', ' '];
    let mut i: usize = 0;
    let ghost head = h@;
    while i < key.len()
        invariant
            i <= key@.len(),
            h@ == head + key@.take(i as int),
        decreases key@.len() - i,
    {
        h.push(key[i]);
        assert(key@.take(i + 1) == key@.take(i as int).push(key@[i as int]));
        i += 1;
    }
    assert(key@.take(key@.len() as int) == key@);
    h.push(':');
    assert(h@ =~= header(key@));
    has_prefix(l, &h)
}

/// The trimmed text after the header prefix for a key of `key_len` letters.
fn value_after(l: &[char], key_len: usize) -> (r: String)
    requires
        key_len <= 7,
        key_len + 3 <= l@.len(),
    ensures
        r@ == trim(l@.skip(key_len + 3)),
{
    let rest = &l[key_len + 3..l.len()];
    assert(rest@ == l@.skip(key_len + 3));
    let t = trim_chars(rest);
    string_of(&t)
}

/// Reads a conversation file (see [`read_conversation_of`]); `stem` is the
/// file name without its extension, the name when no header gives one.
pub fn read_conversation(content: &str, stem: &str) -> (r: ConversationFile)
    ensures
        r@ == read_conversation_of(content@, stem@),
{
    let chars = chars_of(content);
    let ls = split_lines(&chars);
    let ghost all = views(ls@);
    let mut r = ConversationFile {
        name: stem.to_owned(),
        model_name: "Custom".to_owned(),
        input: None,
        output: None,
        cached: None,
        context: 1_000_000,
        turns: Vec::new(),
    };
    assert(strings_view(r.turns@) =~= Seq::<Seq<char>>::empty());
    let k_name: [char; 4] = ['n', 'a', 'm', 'e'];
    let k_model: [char; 5] = ['m', 'o', 'd', 'e', 'l'];
    let k_input: [char; 5] = ['i', 'n', 'p', 'u', 't'];
    let k_output: [char; 6] = ['o', 'u', 't', 'p', 'u', 't'];
    let k_cached: [char; 6] = ['c', 'a', 'c', 'h', 'e', 'd'];
    let k_context: [char; 7] = ['c', 'o', 'n', 't', 'e', 'x', 't'];
    proof {
        reveal_strlit("name");
        reveal_strlit("model");
        reveal_strlit("input");
        reveal_strlit("output");
        reveal_strlit("cached");
        reveal_strlit("context");
        assert(k_name@ =~= "name"@);
        assert(k_model@ =~= "model"@);
        assert(k_input@ =~= "input"@);
        assert(k_output@ =~= "output"@);
        assert(k_cached@ =~= "cached"@);
        assert(k_context@ =~= "context"@);
    }
    let mut i: usize = 0;
    assert(all.take(0) =~= Seq::<Seq<char>>::empty());
    while i < ls.len()
        invariant
            i <= ls@.len(),
            all == views(ls@),
            all == lines(content@),
            r@ == read_lines(start_record(stem@), all.take(i as int)),
            k_name@ == "name"@,
            k_model@ == "model"@,
            k_input@ == "input"@,
            k_output@ == "output"@,
            k_cached@ == "cached"@,
            k_context@ == "context"@,
            "name"@.len() == 4,
            "model"@.len() == 5,
            "input"@.len() == 5,
            "output"@.len() == 6,
            "cached"@.len() == 6,
            "context"@.len() == 7,
        decreases ls@.len() - i,
    {
        assert(all.take(i + 1).drop_last() == all.take(i as int));
        assert(all.take(i + 1).last() == ls@[i as int]@);
        let l = trim_chars(&ls[i]);
        if l.len() == 0 {
        } else if starts_with_header(&l, &k_name) {
            r.name = value_after(&l, 4);
        } else if starts_with_header(&l, &k_model) {
            r.model_name = value_after(&l, 5);
        } else if starts_with_header(&l, &k_input) {
            r.input = Some(value_after(&l, 5));
        } else if starts_with_header(&l, &k_output) {
            r.output = Some(value_after(&l, 6));
        } else if starts_with_header(&l, &k_cached) {
            r.cached = Some(value_after(&l, 6));
        } else if starts_with_header(&l, &k_context) {
            let v = value_after(&l, 7);
            let vc = chars_of(v.as_str());
            r.context = match parse_u64(&vc) {
                Some(n) => n,
                None => 1_000_000,
            };
        } else if l[0] == '#' {
        } else {
            let ghost before = strings_view(r.turns@);
            let line = string_of(&l);
            r.turns.push(line);
            assert(strings_view(r.turns@) =~= before.push(l@));
        }
        i += 1;
    }
    assert(all.take(ls@.len() as int) == all);
    r
}

/// Whether `v` holds no newline.
pub open spec fn no_newline(v: Seq<char>) -> bool {
    forall|i: int| 0 <= i < v.len() ==> #[trigger] v[i] != '\n'
}

/// Whether `v` can stand as a header value and read back unchanged: it has
/// no newline and no white space at its ends.
pub open spec fn is_header_value(v: Seq<char>) -> bool {
    is_trimmed(v) && no_newline(v)
}

/// Whether `t` can stand as a turn line and read back unchanged: it is not
/// blank, has no newline and no white space at its ends, and does not start
/// with `#`.
pub open spec fn is_turn_line(t: Seq<char>) -> bool {
    t.len() > 0 && is_header_value(t) && t[0] != '#'
}

/// The block of several lines is the blocks of its parts.
proof fn lemma_turn_block_append(a: Seq<Seq<char>>, b: Seq<Seq<char>>)
    ensures
        turn_block(a + b) == turn_block(a) + turn_block(b),
    decreases b.len(),
{
    if b.len() == 0 {
        assert(a + b =~= a);
        assert(turn_block(a) + turn_block(b) =~= turn_block(a));
    } else {
        lemma_turn_block_append(a, b.drop_last());
        assert((a + b).drop_last() =~= a + b.drop_last());
        assert((a + b).last() == b.last());
        assert(turn_block(a + b) =~= turn_block(a) + turn_block(b));
    }
}

/// A block of lines splits back into those lines, plus the empty piece
/// after the final newline.
proof fn lemma_lines_block(ys: Seq<Seq<char>>)
    requires
        forall|i: int| 0 <= i < ys.len() ==> no_newline(#[trigger] ys[i]),
    ensures
        lines(turn_block(ys)) == ys.push(Seq::<char>::empty()),
    decreases ys.len(),
{
    if ys.len() == 0 {
        assert(lines(Seq::<char>::empty()) =~= seq![Seq::<char>::empty()]);
    } else {
        let y0 = ys.drop_last();
        let y = ys.last();
        assert forall|i: int| 0 <= i < y0.len() implies no_newline(#[trigger] y0[i]) by {
            assert(y0[i] == ys[i]);
        }
        lemma_lines_block(y0);
        let z = turn_block(y0);
        assert(no_newline(ys[ys.len() - 1]));
        lemma_lines_plain_suffix(z, y);
        assert(Seq::<char>::empty() + y =~= y);
        let zy = z + y;
        assert(lines(zy) =~= y0.push(y));
        let full = zy.push('\n');
        assert(full =~= turn_block(ys));
        assert(full.drop_last() =~= zy);
        lemma_lines_nonempty(zy);
        assert(lines(full) =~= y0.push(y).push(Seq::<char>::empty()));
        assert(y0.push(y) =~= ys);
    }
}

/// Reading lines in two runs is reading them in one.
proof fn lemma_read_lines_append(r: FileRecord, a: Seq<Seq<char>>, b: Seq<Seq<char>>)
    ensures
        read_lines(r, a + b) == read_lines(read_lines(r, a), b),
    decreases b.len(),
{
    if b.len() == 0 {
        assert(a + b =~= a);
    } else {
        lemma_read_lines_append(r, a, b.drop_last());
        assert((a + b).drop_last() =~= a + b.drop_last());
        assert((a + b).last() == b.last());
    }
}

/// A line that does not start with `#` starts with no header.
proof fn lemma_not_header_start(key: Seq<char>, t: Seq<char>)
    requires
        t.len() > 0,
        t[0] != '#',
    ensures
        !header(key).is_prefix_of(t),
{
    if header(key).is_prefix_of(t) {
        assert(t.subrange(0, header(key).len() as int)[0] == header(key)[0]);
    }
}

/// Turn lines are appended to the turns as they are.
proof fn lemma_read_turns(r: FileRecord, ts: Seq<Seq<char>>)
    requires
        forall|i: int| 0 <= i < ts.len() ==> is_turn_line(#[trigger] ts[i]),
    ensures
        read_lines(r, ts) == (FileRecord { turns: r.turns + ts, ..r }),
    decreases ts.len(),
{
    if ts.len() == 0 {
        assert(r.turns + ts =~= r.turns);
        assert((FileRecord { turns: r.turns + ts, ..r }) == r);
    } else {
        let t0 = ts.drop_last();
        assert forall|i: int| 0 <= i < t0.len() implies is_turn_line(#[trigger] t0[i]) by {
            assert(t0[i] == ts[i]);
        }
        lemma_read_turns(r, t0);
        let t = ts.last();
        assert(is_turn_line(ts[ts.len() - 1]));
        assert(trim_start(t) == t);
        assert(trim_end(t) == t);
        assert(trim(t) == t);
        lemma_not_header_start("name"@, t);
        lemma_not_header_start("model"@, t);
        lemma_not_header_start("input"@, t);
        lemma_not_header_start("output"@, t);
        lemma_not_header_start("cached"@, t);
        lemma_not_header_start("context"@, t);
        assert(read_lines(r, ts) == read_step(read_lines(r, t0), t));
        assert((r.turns + t0).push(t) =~= r.turns + ts);
    }
}

/// A header line reads back as that header, with the value trimmed.
proof fn lemma_header_line(key: Seq<char>, v: Seq<char>)
    requires
        forall|i: int| 0 <= i < key.len() ==> 'a' <= #[trigger] key[i] <= 'z',
    ensures
        header(key).is_prefix_of(trim(header(key) + seq![' '] + v)),
        header_value(trim(header(key) + seq![' '] + v), key) == trim(v),
        forall|j: int| 0 <= j < key.len() ==> #[trigger] trim(header(key) + seq![' '] + v)[j + 2] == key[j],
{
    let h = header(key);
    let l = h + seq![' '] + v;
    let e = Seq::<char>::empty();
    lemma_trim_split(v);
    let (a, c) = choose|a: Seq<char>, c: Seq<char>| all_ws(a) && all_ws(c) && v == a + trim(v) + c;
    let m = trim(v);
    lemma_trim_trimmed(v);
    assert(all_ws(e));
    assert(h[0] == '#');
    assert(h.last() == ':');
    if m.len() > 0 {
        let x = h + seq![' '] + a + m;
        assert(l =~= e + x + c);
        assert(x[0] == '#');
        assert(x.last() == m.last());
        lemma_trim_of(e, x, c);
        assert(trim(l) == x);
        assert(x.subrange(0, h.len() as int) =~= h);
        let sp = seq![' '] + a;
        assert(all_ws(sp)) by {
            assert forall|i: int| 0 <= i < sp.len() implies is_ws(#[trigger] sp[i]) by {
                if i > 0 {
                    assert(sp[i] == a[i - 1]);
                }
            }
        }
        assert(x.skip(h.len() as int) =~= sp + m + e);
        lemma_trim_of(sp, m, e);
        assert forall|j: int| 0 <= j < key.len() implies #[trigger] trim(l)[j + 2] == key[j] by {
            assert(x[j + 2] == h[j + 2]);
        }
    } else {
        let tail = seq![' '] + a + c;
        assert(all_ws(tail)) by {
            assert forall|i: int| 0 <= i < tail.len() implies is_ws(#[trigger] tail[i]) by {
                if 0 < i < a.len() + 1 {
                    assert(tail[i] == a[i - 1]);
                } else if i >= a.len() + 1 {
                    assert(tail[i] == c[i - 1 - a.len()]);
                }
            }
        }
        assert(v =~= a + c);
        assert(l =~= e + h + tail);
        lemma_trim_of(e, h, tail);
        assert(h.is_prefix_of(h)) by {
            assert(h.subrange(0, h.len() as int) =~= h);
        }
        assert(h.skip(h.len() as int) =~= Seq::<char>::empty());
        assert(trim(Seq::<char>::empty()) =~= Seq::<char>::empty());
    }
}

/// A number written in decimal reads back as that number.
proof fn lemma_decimal_reads_back(n: nat)
    requires
        n <= u64::MAX,
    ensures
        parse_u64_of(decimal(n)) == Some(n as u64),
{
    lemma_decimal_digits(n);
    let d = decimal(n);
    assert(d[0] != '+') by {
        assert(is_digit(d[0]));
    }
}

/// The decimal digits of `n` are digits, and they are worth `n`.
proof fn lemma_decimal_digits(n: nat)
    ensures
        decimal(n).len() > 0,
        crate::number::all_digits(decimal(n)),
        digits_value(decimal(n)) == n,
    decreases n,
{
    let d = decimal(n);
    if n < 10 {
        assert(d.drop_last() =~= Seq::<char>::empty());
        assert(d.last() == crate::format::digit_char(n));
        assert((d.last() as u32) == n + 48);
        assert(digits_value(d.drop_last()) == 0);
        assert(digits_value(d) == digits_value(d.drop_last()) * 10 + ((d.last() as u32) - 48));
        assert(is_digit(d[0]));
    } else {
        lemma_decimal_digits(n / 10);
        let p = decimal(n / 10);
        assert(d.drop_last() == p);
        assert(n == (n / 10) * 10 + n % 10) by (nonlinear_arith);
        assert(d.last() == crate::format::digit_char(n % 10));
        assert((d.last() as u32) == n % 10 + 48);
        assert(digits_value(d) == digits_value(p) * 10 + ((d.last() as u32) - 48));
        assert forall|i: int| 0 <= i < d.len() implies is_digit(#[trigger] d[i]) by {
            if i < p.len() {
                assert(d[i] == p[i]);
            }
        }
    }
}

/// A header prefix does not start a line that differs from it at a letter
/// of the key.
proof fn lemma_header_mismatch(k1: Seq<char>, l: Seq<char>, j: int)
    requires
        0 <= j < k1.len(),
        j + 2 < l.len(),
        l[j + 2] != k1[j],
    ensures
        !header(k1).is_prefix_of(l),
{
    if header(k1).is_prefix_of(l) {
        assert(l.subrange(0, header(k1).len() as int)[j + 2] == header(k1)[j + 2]);
    }
}

/// A header line built from a value with no newline has no newline.
proof fn lemma_header_line_no_newline(key: Seq<char>, v: Seq<char>)
    requires
        no_newline(v),
        forall|i: int| 0 <= i < key.len() ==> 'a' <= #[trigger] key[i] <= 'z',
    ensures
        no_newline(header(key) + seq![' '] + v),
{
    let x = header(key) + seq![' '] + v;
    assert forall|j: int| 0 <= j < x.len() implies #[trigger] x[j] != '\n' by {
        if j >= key.len() + 4 {
            assert(x[j] == v[j - key.len() - 4]);
        } else if 2 <= j < key.len() + 2 {
            assert(x[j] == key[j - 2]);
        }
    }
}

/// The trimmed header line holds its key's letters after `# `.
proof fn lemma_header_line_letter(key: Seq<char>, v: Seq<char>, j: int)
    requires
        forall|i: int| 0 <= i < key.len() ==> 'a' <= #[trigger] key[i] <= 'z',
        0 <= j < key.len(),
    ensures
        j + 2 < trim(header(key) + seq![' '] + v).len(),
        trim(header(key) + seq![' '] + v)[j + 2] == key[j],
{
    lemma_header_line(key, v);
    assert(trim(header(key) + seq![' '] + v)[j + 2] == key[j]);
}

/// Reading six lines one after another is six read steps.
proof fn lemma_read_headers(
    start: FileRecord,
    h0: Seq<char>,
    h1: Seq<char>,
    h2: Seq<char>,
    h3: Seq<char>,
    h4: Seq<char>,
    h5: Seq<char>,
    r6: FileRecord,
)
    requires
        read_step(read_step(read_step(read_step(read_step(read_step(start, h0), h1), h2), h3), h4), h5)
            == r6,
    ensures
        read_lines(start, seq![h0, h1, h2, h3, h4, h5]) == r6,
{
    let hs = seq![h0, h1, h2, h3, h4, h5];
    reveal_with_fuel(read_lines, 7);
    assert(hs.drop_last() =~= seq![h0, h1, h2, h3, h4]);
    assert(hs.drop_last().drop_last() =~= seq![h0, h1, h2, h3]);
    assert(hs.drop_last().drop_last().drop_last() =~= seq![h0, h1, h2]);
    assert(hs.drop_last().drop_last().drop_last().drop_last() =~= seq![h0, h1]);
    assert(hs.drop_last().drop_last().drop_last().drop_last().drop_last() =~= seq![h0]);
    assert(hs.drop_last().drop_last().drop_last().drop_last().drop_last().drop_last()
        =~= Seq::<Seq<char>>::empty());
}

/// A conversation written by [`conversation_text`] reads back as written:
/// the name, the model's name and its three price texts come back trimmed,
/// the context window and every turn line come back equal, provided each
/// value is a single line and each turn line is non-blank, a single line
/// with no white space at its ends, and does not start with `#`.
#[verifier::rlimit(80)]
#[verifier::spinoff_prover]
pub proof fn saved_conversation_reads_back(
    name: Seq<char>,
    model_name: Seq<char>,
    input: Seq<char>,
    output: Seq<char>,
    cached: Seq<char>,
    context: u64,
    turns: Seq<Seq<char>>,
    stem: Seq<char>,
)
    requires
        no_newline(name),
        no_newline(model_name),
        no_newline(input),
        no_newline(output),
        no_newline(cached),
        forall|i: int| 0 <= i < turns.len() ==> is_turn_line(#[trigger] turns[i]),
    ensures
        read_conversation_of(
            conversation_text_of(name, model_name, input, output, cached, context, turns),
            stem,
        ) == (FileRecord {
            name: trim(name),
            model_name: trim(model_name),
            input: Some(trim(input)),
            output: Some(trim(output)),
            cached: Some(trim(cached)),
            context,
            turns,
        }),
{
    reveal_strlit("name");
    reveal_strlit("model");
    reveal_strlit("input");
    reveal_strlit("output");
    reveal_strlit("cached");
    reveal_strlit("context");
    let kn = "name"@;
    let km = "model"@;
    let ki = "input"@;
    let ko = "output"@;
    let kc = "cached"@;
    let kx = "context"@;
    assert(kn =~= seq!['n', 'a', 'm', 'e']);
    assert(km =~= seq!['m', 'o', 'd', 'e', 'l']);
    assert(ki =~= seq!['i', 'n', 'p', 'u', 't']);
    assert(ko =~= seq!['o', 'u', 't', 'p', 'u', 't']);
    assert(kc =~= seq!['c', 'a', 'c', 'h', 'e', 'd']);
    assert(kx =~= seq!['c', 'o', 'n', 't', 'e', 'x', 't']);
    let ctx = decimal(context as nat);
    lemma_decimal_digits(context as nat);
    lemma_decimal_reads_back(context as nat);
    assert(is_header_value(ctx)) by {
        assert(is_digit(ctx[0]));
        assert(is_digit(ctx[ctx.len() - 1]));
        assert forall|i: int| 0 <= i < ctx.len() implies #[trigger] ctx[i] != '\n' by {
            assert(is_digit(ctx[i]));
        }
    }
    lemma_trimmed_trim(ctx);
    let h0 = header(kn) + seq![' '] + name;
    let h1 = header(km) + seq![' '] + model_name;
    let h2 = header(ki) + seq![' '] + input;
    let h3 = header(ko) + seq![' '] + output;
    let h4 = header(kc) + seq![' '] + cached;
    let h5 = header(kx) + seq![' '] + ctx;
    let hs = seq![h0, h1, h2, h3, h4, h5];
    let text = conversation_text_of(name, model_name, input, output, cached, context, turns);
    lemma_turn_block_append(hs, turns);
    assert(turn_block(hs) =~= header_line(kn, name) + header_line(km, model_name) + header_line(
        ki,
        input,
    ) + header_line(ko, output) + header_line(kc, cached) + header_line(kx, ctx)) by {
        reveal_with_fuel(turn_block, 7);
        assert(hs.drop_last() =~= seq![h0, h1, h2, h3, h4]);
        assert(hs.drop_last().drop_last() =~= seq![h0, h1, h2, h3]);
        assert(hs.drop_last().drop_last().drop_last() =~= seq![h0, h1, h2]);
        assert(hs.drop_last().drop_last().drop_last().drop_last() =~= seq![h0, h1]);
        assert(hs.drop_last().drop_last().drop_last().drop_last().drop_last() =~= seq![h0]);
        assert(hs.drop_last().drop_last().drop_last().drop_last().drop_last().drop_last()
            =~= Seq::<Seq<char>>::empty());
    }
    assert(text =~= turn_block(hs + turns));
    lemma_header_line_no_newline(kn, name);
    lemma_header_line_no_newline(km, model_name);
    lemma_header_line_no_newline(ki, input);
    lemma_header_line_no_newline(ko, output);
    lemma_header_line_no_newline(kc, cached);
    lemma_header_line_no_newline(kx, ctx);
    let ls = hs + turns;
    assert forall|i: int| 0 <= i < ls.len() implies no_newline(#[trigger] ls[i]) by {
        if i >= hs.len() {
            assert(ls[i] == turns[i - hs.len()]);
            assert(is_turn_line(turns[i - hs.len()]));
        } else {
            assert(ls[i] == hs[i]);
        }
    }
    lemma_lines_block(ls);
    let e = Seq::<char>::empty();
    let start = start_record(stem);
    assert(ls.push(e).drop_last() == ls);
    assert(trim(e) == e);
    assert(read_conversation_of(text, stem) == read_lines(start, ls));
    lemma_read_lines_append(start, hs, turns);
    // The six headers, one after another.
    lemma_header_line(kn, name);
    lemma_header_line(km, model_name);
    lemma_header_line(ki, input);
    lemma_header_line(ko, output);
    lemma_header_line(kc, cached);
    lemma_header_line(kx, ctx);
    let l1 = trim(h1);
    let l2 = trim(h2);
    let l3 = trim(h3);
    let l4 = trim(h4);
    let l5 = trim(h5);
    lemma_header_line_letter(km, model_name, 0);
    lemma_header_mismatch(kn, l1, 0);
    lemma_header_line_letter(ki, input, 0);
    lemma_header_mismatch(kn, l2, 0);
    lemma_header_mismatch(km, l2, 0);
    lemma_header_line_letter(ko, output, 0);
    lemma_header_mismatch(kn, l3, 0);
    lemma_header_mismatch(km, l3, 0);
    lemma_header_mismatch(ki, l3, 0);
    lemma_header_line_letter(kc, cached, 0);
    lemma_header_mismatch(kn, l4, 0);
    lemma_header_mismatch(km, l4, 0);
    lemma_header_mismatch(ki, l4, 0);
    lemma_header_mismatch(ko, l4, 0);
    lemma_header_line_letter(kx, ctx, 0);
    lemma_header_line_letter(kx, ctx, 1);
    lemma_header_mismatch(kn, l5, 0);
    lemma_header_mismatch(km, l5, 0);
    lemma_header_mismatch(ki, l5, 0);
    lemma_header_mismatch(ko, l5, 0);
    lemma_header_mismatch(kc, l5, 1);
    let r6 = FileRecord {
        name: trim(name),
        model_name: trim(model_name),
        input: Some(trim(input)),
        output: Some(trim(output)),
        cached: Some(trim(cached)),
        context,
        turns: Seq::empty(),
    };
    lemma_read_headers(start, h0, h1, h2, h3, h4, h5, r6);
    lemma_read_turns(r6, turns);
    assert(Seq::<Seq<char>>::empty() + turns =~= turns);
}

/// What `str::to_lowercase` returns for `s`: its full Unicode lowercase.
pub uninterp spec fn unicode_lowercase(s: Seq<char>) -> Seq<char>;

/// Calls `str::to_lowercase`. Its contract only says that the result is
/// [`unicode_lowercase`] of the text, the same for the same text (the
/// mapping does not depend on a locale); the Unicode mapping itself is
/// left unsaid.
#[verifier::external_body]
fn to_lowercase(s: &str) -> (r: String)
    ensures
        r@ == unicode_lowercase(s@),
{
    s.to_lowercase()
}

/// Whether `a` comes no later than `b` in the order of `str`: character by
/// character by code point, a prefix first.
pub open spec fn text_le(a: Seq<char>, b: Seq<char>) -> bool
    decreases a.len(),
{
    if a.len() == 0 {
        true
    } else if b.len() == 0 {
        false
    } else if a[0] != b[0] {
        a[0] < b[0]
    } else {
        text_le(a.drop_first(), b.drop_first())
    }
}

/// Any two texts are ordered one way or the other, and both ways only when
/// equal.
proof fn lemma_text_le_total(a: Seq<char>, b: Seq<char>)
    ensures
        text_le(a, b) || text_le(b, a),
        text_le(a, b) && text_le(b, a) ==> a == b,
    decreases a.len(),
{
    if a.len() > 0 && b.len() > 0 {
        if a[0] == b[0] {
            lemma_text_le_total(a.drop_first(), b.drop_first());
            if a.drop_first() == b.drop_first() {
                assert(a =~= seq![a[0]] + a.drop_first());
                assert(b =~= seq![b[0]] + b.drop_first());
            }
        }
    } else if a.len() == 0 && b.len() == 0 {
        assert(a =~= b);
    }
}

/// The order of texts is transitive.
proof fn lemma_text_le_trans(a: Seq<char>, b: Seq<char>, c: Seq<char>)
    requires
        text_le(a, b),
        text_le(b, c),
    ensures
        text_le(a, c),
    decreases a.len(),
{
    if a.len() > 0 && b.len() > 0 && c.len() > 0 {
        if a[0] == b[0] && b[0] == c[0] {
            lemma_text_le_trans(a.drop_first(), b.drop_first(), c.drop_first());
        }
    }
}

/// Whether `order` lists the saved conversations named `names` as `list`
/// shows them: every index once, by lowercase name, conversations whose
/// lowercase names are equal in the order they were found.
pub open spec fn is_name_order(names: Seq<Seq<char>>, order: Seq<usize>) -> bool {
    &&& order.len() == names.len()
    &&& forall|i: int| 0 <= i < order.len() ==> (#[trigger] order[i]) < names.len()
    &&& forall|i: int, j: int| 0 <= i < j < order.len() ==> order[i] != order[j]
    &&& forall|i: int, j: int|
        0 <= i < j < order.len() ==> text_le(
            unicode_lowercase(names[order[i] as int]),
            unicode_lowercase(names[order[j] as int]),
        )
    &&& forall|i: int, j: int|
        0 <= i < j < order.len() && unicode_lowercase(names[order[i] as int]) == unicode_lowercase(
            names[order[j] as int],
        ) ==> order[i] < order[j]
}

/// Whether `a` comes no later than `b` (see [`text_le`]).
fn chars_le(a: &Vec<char>, b: &Vec<char>) -> (r: bool)
    ensures
        r == text_le(a@, b@),
{
    let mut i: usize = 0;
    assert(a@.skip(0) =~= a@);
    assert(b@.skip(0) =~= b@);
    while i < a.len() && i < b.len()
        invariant
            i <= a@.len(),
            i <= b@.len(),
            a@.take(i as int) == b@.take(i as int),
            text_le(a@, b@) == text_le(a@.skip(i as int), b@.skip(i as int)),
        decreases a@.len() - i,
    {
        if a[i] != b[i] {
            assert(a@.skip(i as int)[0] == a@[i as int]);
            assert(b@.skip(i as int)[0] == b@[i as int]);
            return a[i] < b[i];
        }
        assert(a@.skip(i as int).drop_first() =~= a@.skip(i + 1));
        assert(b@.skip(i as int).drop_first() =~= b@.skip(i + 1));
        assert(a@.take(i + 1) =~= a@.take(i as int).push(a@[i as int]));
        assert(b@.take(i + 1) =~= b@.take(i as int).push(b@[i as int]));
        i += 1;
    }
    i == a.len()
}

/// The order in which `list` shows saved conversations with these names
/// (see [`is_name_order`]): by lowercase name, a stable sort.
pub fn name_order(names: &Vec<String>) -> (order: Vec<usize>)
    ensures
        is_name_order(strings_view(names@), order@),
{
    let ghost ns = strings_view(names@);
    let mut keys: Vec<Vec<char>> = Vec::new();
    let mut k: usize = 0;
    while k < names.len()
        invariant
            k <= names@.len(),
            ns == strings_view(names@),
            keys@.len() == k,
            forall|i: int| 0 <= i < k ==> (#[trigger] keys@[i])@ == unicode_lowercase(ns[i]),
        decreases names@.len() - k,
    {
        let lc = to_lowercase(names[k].as_str());
        keys.push(chars_of(lc.as_str()));
        k += 1;
    }
    let mut order: Vec<usize> = Vec::new();
    let mut j: usize = 0;
    while j < names.len()
        invariant
            j <= names@.len(),
            ns == strings_view(names@),
            keys@.len() == names@.len(),
            forall|i: int| 0 <= i < names@.len() ==> (#[trigger] keys@[i])@ == unicode_lowercase(ns[i]),
            is_name_order(ns.take(j as int), order@),
        decreases names@.len() - j,
    {
        let ghost pre = ns.take(j as int);
        let ghost kj = unicode_lowercase(ns[j as int]);
        assert(pre.len() == j);
        let mut p: usize = 0;
        while p < order.len() && chars_le(&keys[order[p]], &keys[j])
            invariant
                p <= order@.len(),
                j < names@.len(),
                keys@.len() == names@.len(),
                forall|i: int| 0 <= i < names@.len() ==> (#[trigger] keys@[i])@ == unicode_lowercase(ns[i]),
                is_name_order(pre, order@),
                pre == ns.take(j as int),
                kj == unicode_lowercase(ns[j as int]),
                ns == strings_view(names@),
                forall|q: int| 0 <= q < order@.len() ==> (#[trigger] order@[q]) < j,
                forall|q: int| 0 <= q < p ==> text_le(
                    unicode_lowercase(ns[#[trigger] order@[q] as int]),
                    kj,
                ),
            decreases order@.len() - p,
        {
            assert(keys@[order@[p as int] as int]@ == unicode_lowercase(ns[order@[p as int] as int]));
            assert(keys@[j as int]@ == kj);
            p += 1;
        }
        let ghost old_order = order@;
        order.insert(p, j);
        let ghost nw = ns.take(j + 1);
        assert forall|i: int| 0 <= i < old_order.len() implies nw[old_order[i] as int] == ns[old_order[i] as int]
            && pre[old_order[i] as int] == ns[old_order[i] as int] by {
            assert(old_order[i] < j);
        }
        assert(nw[j as int] == ns[j as int]);
        assert(order@ == old_order.insert(p as int, j));
        assert forall|i: int| 0 <= i < order@.len() implies (#[trigger] order@[i]) < nw.len() by {
            if i < p {
                assert(order@[i] == old_order[i]);
            } else if i > p {
                assert(order@[i] == old_order[i - 1]);
            }
        }
        assert forall|a: int, b: int| 0 <= a < b < order@.len() implies order@[a] != order@[b] by {
            if a != p && b != p {
                let a0 = if a < p { a } else { a - 1 };
                let b0 = if b < p { b } else { b - 1 };
                assert(order@[a] == old_order[a0]);
                assert(order@[b] == old_order[b0]);
            } else if a == p {
                assert(order@[b] == old_order[b - 1]);
                assert(old_order[b - 1] < j);
            } else {
                assert(order@[a] == old_order[a]);
                assert(old_order[a] < j);
            }
        }
        assert forall|a: int, b: int| 0 <= a < b < order@.len() implies text_le(
            unicode_lowercase(nw[order@[a] as int]),
            unicode_lowercase(nw[order@[b] as int]),
        ) && (unicode_lowercase(nw[order@[a] as int]) == unicode_lowercase(nw[order@[b] as int])
            ==> order@[a] < order@[b]) by {
            let a0 = if a < p { a } else { a - 1 };
            let b0 = if b < p { b } else { b - 1 };
            if a != p && b != p {
                assert(order@[a] == old_order[a0]);
                assert(order@[b] == old_order[b0]);
                assert(a0 < b0);
            } else if a == p {
                assert(order@[b] == old_order[b0]);
                assert(order@[a] == j);
                let kb = unicode_lowercase(ns[old_order[b0] as int]);
                let kp = unicode_lowercase(ns[old_order[p as int] as int]);
                assert(p < old_order.len());
                assert(!text_le(kp, kj));
                lemma_text_le_total(kp, kj);
                if b0 > p {
                    assert(text_le(kp, kb));
                    lemma_text_le_trans(kj, kp, kb);
                    if kj == kb {
                        lemma_text_le_total(kp, kb);
                    }
                }
            } else {
                assert(order@[a] == old_order[a0]);
                assert(order@[b] == j);
                assert(text_le(unicode_lowercase(ns[old_order[a0] as int]), kj));
                assert(old_order[a0] < j);
            }
        }
        j += 1;
    }
    assert(ns.take(names@.len() as int) == ns);
    order
}

} // verus!
