//! The marker grammar, and the projection of cells into lines of a language.

use crate::key::CellKey;
use crate::text::{
    after_prefix, append_chars, chars_of, find_char, find_char_in, is_text, join, join_chars,
    lemma_join_split, one, rest, split, split_chars, starts_with, str_eq, string_of, strip_prefix,
    substr, texts, trim_end_chars, trim_start_chars, trimmed_end, trimmed_start, views,
};
use vstd::prelude::*;

verus! {

#[derive(Clone, Copy, Debug, PartialEq, Eq, Structural, Hash)]
pub enum CellKind {
    Code,
    Markdown,
    Raw,
}

/// A kind's name in a notebook file.
pub open spec fn kind_name(kind: CellKind) -> Seq<char> {
    match kind {
        CellKind::Code => "code"@,
        CellKind::Markdown => "markdown"@,
        CellKind::Raw => "raw"@,
    }
}

/// The kind of a name in a notebook file.
pub open spec fn kind_named(s: Seq<char>) -> Option<CellKind> {
    if s == "code"@ {
        Some(CellKind::Code)
    } else if s == "markdown"@ {
        Some(CellKind::Markdown)
    } else if s == "raw"@ {
        Some(CellKind::Raw)
    } else {
        None
    }
}

impl CellKind {
    pub fn as_nbformat(self) -> (r: &'static str)
        ensures
            r@ == kind_name(self),
    {
        match self {
            CellKind::Code => "code",
            CellKind::Markdown => "markdown",
            CellKind::Raw => "raw",
        }
    }

    pub fn from_nbformat(s: &str) -> (r: Option<CellKind>)
        ensures
            r == kind_named(s@),
    {
        if str_eq(s, "code") {
            Some(CellKind::Code)
        } else if str_eq(s, "markdown") {
            Some(CellKind::Markdown)
        } else if str_eq(s, "raw") {
            Some(CellKind::Raw)
        } else {
            None
        }
    }
}

/// A kind's name names the kind.
pub proof fn kind_name_round_trip(kind: CellKind)
    ensures
        kind_named(kind_name(kind)) == Some(kind),
{
    reveal_strlit("code");
    reveal_strlit("markdown");
    reveal_strlit("raw");
    assert("code"@.len() == 4 && "markdown"@.len() == 8 && "raw"@.len() == 3);
}

/// A parsed marker line.
#[derive(Debug, PartialEq, Eq)]
pub struct Marker {
    pub kind: CellKind,
    pub key: Option<CellKey>,
}

impl Clone for Marker {
    fn clone(&self) -> (r: Self)
        ensures
            r@ == self@,
    {
        let key = match &self.key {
            Some(k) => Some(k.clone()),
            None => None,
        };
        Marker { kind: self.kind, key }
    }
}

/// What a marker line says.
pub struct MarkerV {
    pub kind: CellKind,
    pub key: Option<Seq<char>>,
}

impl View for Marker {
    type V = MarkerV;

    open spec fn view(&self) -> MarkerV {
        MarkerV {
            kind: self.kind,
            key: match self.key {
                Some(k) => Some(k@),
                None => None,
            },
        }
    }
}

pub open spec fn marker_opt(m: Option<Marker>) -> Option<MarkerV> {
    match m {
        Some(m) => Some(m@),
        None => None,
    }
}

/// How the cells of one language appear as lines of a buffer.
pub trait LanguageProjection {
    spec fn filetype_is(&self) -> Seq<char>;

    spec fn suffix_is(&self) -> Seq<char>;

    /// The marker line above a cell: one line, which says the cell's kind and key.
    spec fn marker_line(&self, kind: CellKind, key: Seq<char>) -> Seq<char>;

    /// What a line says as a marker.
    spec fn marker_of(&self, line: Seq<char>) -> Option<MarkerV>;

    /// The lines that show a cell's source.
    spec fn lines_of(&self, kind: CellKind, source: Seq<char>) -> Seq<Seq<char>>;

    /// The source that lines show.
    spec fn source_of(&self, kind: CellKind, lines: Seq<Seq<char>>) -> Seq<char>;

    fn filetype(&self) -> (r: &str)
        ensures
            r@ == self.filetype_is(),
    ;

    fn buffer_suffix(&self) -> (r: &str)
        ensures
            r@ == self.suffix_is(),
    ;

    fn format_marker(&self, kind: CellKind, key: &CellKey) -> (r: String)
        ensures
            r@ == self.marker_line(kind, key@),
            self.marker_of(r@) == Some(MarkerV { kind, key: Some(key@) }),
            !r@.contains('\n'),
    ;

    fn parse_marker(&self, line: &str) -> (r: Option<Marker>)
        ensures
            marker_opt(r) == self.marker_of(line@),
    ;

    fn to_buffer(&self, kind: CellKind, source: &str) -> (r: Vec<String>)
        ensures
            texts(r@) == self.lines_of(kind, source@),
    ;

    fn from_buffer(&self, kind: CellKind, lines: &[String]) -> (r: String)
        ensures
            r@ == self.source_of(kind, texts(lines@)),
    ;
}

/// Jupytext's percent format for Python.
#[derive(Clone, Copy, Debug, Default)]
pub struct PythonProjection;

impl LanguageProjection for PythonProjection {
    open spec fn filetype_is(&self) -> Seq<char> {
        "python"@
    }

    open spec fn suffix_is(&self) -> Seq<char> {
        ".py"@
    }

    open spec fn marker_line(&self, kind: CellKind, key: Seq<char>) -> Seq<char> {
        py_marker(kind, key)
    }

    open spec fn marker_of(&self, line: Seq<char>) -> Option<MarkerV> {
        py_parsed(line)
    }

    open spec fn lines_of(&self, kind: CellKind, source: Seq<char>) -> Seq<Seq<char>> {
        py_lines(kind, source)
    }

    open spec fn source_of(&self, kind: CellKind, lines: Seq<Seq<char>>) -> Seq<char> {
        py_source(kind, lines)
    }

    fn filetype(&self) -> (r: &str) {
        "python"
    }

    fn buffer_suffix(&self) -> (r: &str) {
        ".py"
    }

    /// A marker ends at its closing quote and begins at its `#`: with anything behind the one or
    /// before the other the line is no marker.
    fn format_marker(&self, kind: CellKind, key: &CellKey) -> (r: String)
        ensures
            forall|t: Seq<char>| t.len() > 0 ==> self.marker_of(#[trigger] (r@ + t)) is None,
            forall|c: char| self.marker_of(#[trigger] (seq![c] + r@)) is None,
    {
        let mut out = match kind {
            CellKind::Code => chars_of("# %% id="),
            CellKind::Markdown => chars_of("# %% [markdown] id="),
            CellKind::Raw => chars_of("# %% [raw] id="),
        };
        let id = string_literal(key.as_str());
        let ghost lit = id@;
        append_chars(&mut out, &chars_of(id.as_str()));
        proof {
            lemma_marker(kind, key@, lit);
            lemma_marker_line(kind, lit);
            let line = marker_head(kind) + lit;
            assert forall|t: Seq<char>| t.len() > 0 implies self.marker_of(#[trigger] (line + t)) is None by {
                assert(t.last() == t[t.len() - 1]);
                assert(json_unquoted(lit + t) is None || t.last() != '"');
                lemma_marker_ends(kind, lit, t);
            }
            assert forall|c: char| self.marker_of(#[trigger] (seq![c] + line)) is None by {
                lemma_marker_begins(kind, lit, c);
            }
        }
        string_of(&out)
    }

    fn parse_marker(&self, line: &str) -> (r: Option<Marker>) {
        match after_prefix(&chars_of(line), "# %%") {
            Some(rest) => parse_marker_tail(&rest),
            None => None,
        }
    }

    fn to_buffer(&self, kind: CellKind, source: &str) -> (r: Vec<String>) {
        let lines = split_chars(&chars_of(source), '\n');
        let ghost parts = split(source@, '\n');
        let mut out: Vec<String> = Vec::new();
        let mut i: usize = 0;
        while i < lines.len()
            invariant
                i <= lines@.len(),
                out@.len() == i,
                views(lines@) == parts,
                forall|j: int| 0 <= j < i ==> (#[trigger] out@[j])@ == py_line(kind, parts[j]),
            decreases lines@.len() - i,
        {
            assert(parts[i as int] == lines@[i as int]@);
            let line = match kind {
                CellKind::Code => escape_magic(&lines[i]),
                _ => if lines[i].len() == 0 {
                    chars_of("#")
                } else {
                    commented(&lines[i])
                },
            };
            out.push(string_of(&escape_marker(line)));
            i += 1;
        }
        assert(texts(out@) =~= py_lines(kind, source@));
        out
    }

    fn from_buffer(&self, kind: CellKind, lines: &[String]) -> (r: String) {
        let ghost parts = texts(lines@);
        let mut out: Vec<Vec<char>> = Vec::new();
        let mut i: usize = 0;
        while i < lines.len()
            invariant
                i <= lines@.len(),
                out@.len() == i,
                parts == texts(lines@),
                forall|j: int| 0 <= j < i ==> (#[trigger] out@[j])@ == py_unline(kind, parts[j]),
            decreases lines@.len() - i,
        {
            assert(parts[i as int] == lines@[i as int]@);
            proof {
                reveal_strlit("# ");
            }
            let line = unescape_marker(chars_of(lines[i].as_str()));
            let text = match kind {
                CellKind::Code => unescape_magic(line),
                _ => if is_text(&line, "#") {
                    Vec::new()
                } else {
                    match after_prefix(&line, "# ") {
                        Some(rest) => rest,
                        None => line,
                    }
                },
            };
            out.push(text);
            i += 1;
        }
        let joined = join_chars(&out, '\n');
        assert(views(out@) =~= parts.map_values(|l: Seq<char>| py_unline(kind, l)));
        string_of(&joined)
    }
}

/// A string as `serde_json` writes it: a quoted literal.
pub uninterp spec fn json_literal(s: Seq<char>) -> Seq<char>;

/// The string that `serde_json` reads from a literal; none where it is not one.
pub uninterp spec fn json_unquoted(lit: Seq<char>) -> Option<Seq<char>>;

/// The blanks that may stand around a value in JSON.
pub open spec fn json_blank(c: char) -> bool {
    c == ' ' || c == '\n' || c == '\t' || c == '\r'
}

/// `serde_json::to_string` on a string writes a literal in double quotes, with control
/// characters escaped. Reading it back gives the string; `serde_json::from_str` refuses it
/// with anything but blanks behind it.
#[verifier::external_body]
fn string_literal(s: &str) -> (r: String)
    ensures
        r@ == json_literal(s@),
        json_unquoted(r@) == Some(s@),
        r@.len() >= 2 && r@[0] == '"' && r@.last() == '"',
        !r@.contains('\n'),
        forall|t: Seq<char>, i: int|
            #![trigger json_unquoted(r@ + t), t[i]]
            0 <= i < t.len() && !json_blank(t[i]) ==> json_unquoted(r@ + t) is None,
{
    serde_json::to_string(s).expect("strings serialise")
}

/// `serde_json::from_str` reads a string from its literal.
#[verifier::external_body]
fn read_literal(lit: &str) -> (r: Option<String>)
    ensures
        match r {
            Some(s) => json_unquoted(lit@) == Some(s@),
            None => json_unquoted(lit@) is None,
        },
{
    serde_json::from_str(lit).ok()
}

/// `# %%`, the kind unless it is code, and the key.
pub open spec fn py_marker(kind: CellKind, key: Seq<char>) -> Seq<char> {
    marker_head(kind) + json_literal(key)
}

/// What stands before the literal of a marker.
pub open spec fn marker_head(kind: CellKind) -> Seq<char> {
    match kind {
        CellKind::Code => "# %% id="@,
        CellKind::Markdown => "# %% [markdown] id="@,
        CellKind::Raw => "# %% [raw] id="@,
    }
}

proof fn lemma_marker(kind: CellKind, key: Seq<char>, lit: Seq<char>)
    requires
        json_unquoted(lit) == Some(key),
        lit.len() >= 2 && lit[0] == '"' && lit.last() == '"',
    ensures
        py_parsed(marker_head(kind) + lit) == Some(MarkerV { kind, key: Some(key) }),
{
    reveal_strlit("# %%");
    reveal_strlit("# %% id=");
    reveal_strlit("# %% [markdown] id=");
    reveal_strlit("# %% [raw] id=");
    reveal_strlit(" [markdown]");
    reveal_strlit(" [raw]");
    reveal_strlit(" id=");
    let line = marker_head(kind) + lit;
    assert(line.take(4) =~= "# %%"@);
    let tail = line.skip(4);
    let id = " id="@ + lit;
    assert(id.take(4) =~= " id="@);
    assert(id.skip(4) =~= lit);
    match kind {
        CellKind::Code => {
            assert(tail =~= id);
            assert(tail[1] == 'i');
            if starts_with(tail, " [markdown]"@) {
                assert(tail.take(11)[1] == '[');
            }
            if starts_with(tail, " [raw]"@) {
                assert(tail.take(6)[1] == '[');
            }
        },
        CellKind::Markdown => {
            assert(tail.take(11) =~= " [markdown]"@);
            assert(tail.skip(11) =~= id);
        },
        CellKind::Raw => {
            assert(tail.take(6) =~= " [raw]"@);
            assert(tail[2] == 'r');
            if starts_with(tail, " [markdown]"@) {
                assert(tail.take(11)[2] == 'm');
            }
            assert(tail.skip(6) =~= id);
        },
    }
}

proof fn lemma_marker_ends(kind: CellKind, lit: Seq<char>, t: Seq<char>)
    requires
        lit.len() >= 2,
        t.len() > 0,
        json_unquoted(lit + t) is None || t.last() != '"',
    ensures
        py_parsed(marker_head(kind) + lit + t) is None,
{
    reveal_strlit("# %%");
    reveal_strlit("# %% id=");
    reveal_strlit("# %% [markdown] id=");
    reveal_strlit("# %% [raw] id=");
    reveal_strlit(" [markdown]");
    reveal_strlit(" [raw]");
    reveal_strlit(" id=");
    let all = lit + t;
    let line = marker_head(kind) + lit + t;
    assert(line =~= marker_head(kind) + all);
    assert(all.last() == t.last());
    let tail = line.skip(4);
    let id = " id="@ + all;
    assert(id.take(4) =~= " id="@);
    assert(id.skip(4) =~= all);
    match kind {
        CellKind::Code => {
            assert(tail =~= id);
            assert(tail[1] == 'i');
            if starts_with(tail, " [markdown]"@) {
                assert(tail.take(11)[1] == '[');
            }
            if starts_with(tail, " [raw]"@) {
                assert(tail.take(6)[1] == '[');
            }
        },
        CellKind::Markdown => {
            assert(tail.take(11) =~= " [markdown]"@);
            assert(tail.skip(11) =~= id);
        },
        CellKind::Raw => {
            assert(tail.take(6) =~= " [raw]"@);
            assert(tail[2] == 'r');
            if starts_with(tail, " [markdown]"@) {
                assert(tail.take(11)[2] == 'm');
            }
            assert(tail.skip(6) =~= id);
        },
    }
}

proof fn lemma_marker_begins(kind: CellKind, lit: Seq<char>, c: char)
    ensures
        py_parsed(seq![c] + (marker_head(kind) + lit)) is None,
{
    reveal_strlit("# %%");
    reveal_strlit("# %% id=");
    reveal_strlit("# %% [markdown] id=");
    reveal_strlit("# %% [raw] id=");
    let line = seq![c] + (marker_head(kind) + lit);
    assert(line[1] == '#');
    if starts_with(line, "# %%"@) {
        assert(line.take(4)[1] == ' ');
    }
}

proof fn lemma_marker_line(kind: CellKind, lit: Seq<char>)
    requires
        !lit.contains('\n'),
    ensures
        !(marker_head(kind) + lit).contains('\n'),
{
    reveal_strlit("# %% id=");
    reveal_strlit("# %% [markdown] id=");
    reveal_strlit("# %% [raw] id=");
    let h = marker_head(kind);
    let line = h + lit;
    assert forall|i: int| 0 <= i < line.len() implies line[i] != '\n' by {
        if i >= h.len() {
            assert(line[i] == lit[i - h.len()]);
            assert(lit.contains(lit[i - h.len()]));
        }
    }
}

/// A line that begins with `# %%` and goes on with a marker tail.
pub open spec fn py_parsed(line: Seq<char>) -> Option<MarkerV> {
    match strip_prefix(line, "# %%"@) {
        Some(rest) => tail_parsed(rest),
        None => None,
    }
}

/// The marker tail `[ " [" kind "]" ] [ " id=" json-string ]`.
pub open spec fn tail_parsed(rest: Seq<char>) -> Option<MarkerV> {
    if starts_with(rest, " [markdown]"@) {
        id_parsed(CellKind::Markdown, rest.skip(" [markdown]"@.len() as int))
    } else if starts_with(rest, " [raw]"@) {
        id_parsed(CellKind::Raw, rest.skip(" [raw]"@.len() as int))
    } else {
        id_parsed(CellKind::Code, rest)
    }
}

/// Nothing, or ` id=` and a literal with nothing around it.
pub open spec fn id_parsed(kind: CellKind, rest: Seq<char>) -> Option<MarkerV> {
    if rest.len() == 0 {
        Some(MarkerV { kind, key: None })
    } else {
        match strip_prefix(rest, " id="@) {
            Some(lit) => if lit.len() >= 2 && lit[0] == '"' && lit.last() == '"' {
                match json_unquoted(lit) {
                    Some(key) => Some(MarkerV { kind, key: Some(key) }),
                    None => None,
                }
            } else {
                None
            },
            None => None,
        }
    }
}

/// How many `# ` a line begins with.
pub open spec fn comment_depth(s: Seq<char>) -> nat
    decreases s.len(),
{
    if starts_with(s, "# "@) && "# "@.len() == 2 {
        comment_depth(s.skip(2)) + 1
    } else {
        0
    }
}

/// What follows the leading `# `s of a line.
pub open spec fn comment_body(s: Seq<char>) -> Seq<char> {
    s.skip(2 * comment_depth(s) as int)
}

/// The number of leading `# ` on a line of the form `("# ")^j "%%" tail`, where `tail` is a
/// valid marker tail. Depth 1 is a marker; depth 2 and more is an escaped one.
pub open spec fn depth_of_marker(s: Seq<char>) -> nat {
    let body = comment_body(s);
    if comment_depth(s) > 0 && starts_with(body, "%%"@) && tail_parsed(
        body.skip("%%"@.len() as int),
    ) is Some {
        comment_depth(s)
    } else {
        0
    }
}

pub open spec fn marker_escaped(s: Seq<char>) -> Seq<char> {
    if depth_of_marker(s) >= 1 {
        "# "@ + s
    } else {
        s
    }
}

pub open spec fn marker_unescaped(s: Seq<char>) -> Seq<char> {
    if depth_of_marker(s) >= 2 {
        s.skip(2)
    } else {
        s
    }
}

/// The number of blanks and tabs a line begins with.
pub open spec fn indent_of(s: Seq<char>) -> nat
    decreases s.len(),
{
    if s.len() > 0 && (s[0] == ' ' || s[0] == '\t') {
        indent_of(s.skip(1)) + 1
    } else {
        0
    }
}

pub open spec fn letter(c: char) -> bool {
    'a' <= c <= 'z' || 'A' <= c <= 'Z'
}

pub open spec fn digit(c: char) -> bool {
    '0' <= c <= '9'
}

pub open spec fn ascii_blank(c: char) -> bool {
    c == ' ' || c == '\t' || c == '\n' || c == '\r' || c == '\u{c}'
}

/// `%name`, `%%name` or `!cmd`.
pub open spec fn begins_magic(s: Seq<char>) -> bool {
    ||| s.len() >= 3 && s[0] == '%' && s[1] == '%' && (letter(s[2]) || s[2] == '_')
    ||| s.len() >= 2 && s[0] == '%' && (letter(s[1]) || s[1] == '_')
    ||| s.len() >= 2 && s[0] == '!' && !ascii_blank(s[1]) && s[1] != '='
}

/// What may stand left of the `=` of an assignment from a magic.
pub open spec fn magic_target(s: Seq<char>) -> bool {
    &&& s.len() > 0
    &&& letter(s[0]) || s[0] == '_'
    &&& forall|i: int|
        0 <= i < s.len() ==> letter(#[trigger] s[i]) || digit(s[i]) || s[i] == '_' || s[i] == '.'
            || s[i] == ',' || s[i] == ' '
}

/// A magic, a shell escape, or an assignment from one: `%name`, `%%name`, `!cmd`,
/// `x = %name`, `x = !cmd`.
pub open spec fn is_magic(s: Seq<char>) -> bool {
    ||| begins_magic(s)
    ||| {
        let eq = find_char(s, '=');
        let rhs = s.skip(eq + 1);
        &&& eq < s.len()
        &&& magic_target(trimmed_end(s.take(eq)))
        &&& !(rhs.len() > 0 && rhs[0] == '=')
        &&& begins_magic(trimmed_start(rhs))
    }
}

/// A magic line, commented or not, gains one `# ` after its indentation.
pub open spec fn magic_escaped(s: Seq<char>) -> Seq<char> {
    let indent = indent_of(s) as int;
    if is_magic(comment_body(s.skip(indent))) {
        s.take(indent) + "# "@ + s.skip(indent)
    } else {
        s
    }
}

pub open spec fn magic_unescaped(s: Seq<char>) -> Seq<char> {
    let indent = indent_of(s) as int;
    let tail = s.skip(indent);
    if comment_depth(tail) >= 1 && is_magic(comment_body(tail)) {
        s.take(indent) + tail.skip(2)
    } else {
        s
    }
}

/// The buffer line of one line of source.
pub open spec fn py_line(kind: CellKind, s: Seq<char>) -> Seq<char> {
    match kind {
        CellKind::Code => marker_escaped(magic_escaped(s)),
        _ => marker_escaped(
            if s.len() == 0 {
                "#"@
            } else {
                "# "@ + s
            },
        ),
    }
}

/// The line of source of one buffer line. Text typed without a comment prefix in a markdown
/// or raw cell is taken as it is.
pub open spec fn py_unline(kind: CellKind, s: Seq<char>) -> Seq<char> {
    let line = marker_unescaped(s);
    match kind {
        CellKind::Code => magic_unescaped(line),
        _ => if line == "#"@ {
            Seq::empty()
        } else if starts_with(line, "# "@) {
            line.skip(2)
        } else {
            line
        },
    }
}

pub open spec fn py_lines(kind: CellKind, source: Seq<char>) -> Seq<Seq<char>> {
    split(source, '\n').map_values(|l: Seq<char>| py_line(kind, l))
}

pub open spec fn py_source(kind: CellKind, lines: Seq<Seq<char>>) -> Seq<char> {
    join(lines.map_values(|l: Seq<char>| py_unline(kind, l)), one('\n'))
}

fn commented(v: &Vec<char>) -> (r: Vec<char>)
    ensures
        r@ == "# "@ + v@,
{
    let mut out = chars_of("# ");
    append_chars(&mut out, v);
    out
}

/// Parses what follows `# %%` against `[ " [" kind "]" ] [ " id=" json-string ]`.
fn parse_marker_tail(v: &Vec<char>) -> (r: Option<Marker>)
    ensures
        marker_opt(r) == tail_parsed(v@),
{
    if let Some(tail) = after_prefix(v, " [markdown]") {
        parse_id(CellKind::Markdown, &tail)
    } else if let Some(tail) = after_prefix(v, " [raw]") {
        parse_id(CellKind::Raw, &tail)
    } else {
        parse_id(CellKind::Code, v)
    }
}

fn parse_id(kind: CellKind, v: &Vec<char>) -> (r: Option<Marker>)
    ensures
        marker_opt(r) == id_parsed(kind, v@),
{
    if v.len() == 0 {
        return Some(Marker { kind, key: None });
    }
    match after_prefix(v, " id=") {
        Some(lit) => {
            // The parser tolerates surrounding white space; the grammar does not.
            if lit.len() < 2 || lit[0] != '"' || lit[lit.len() - 1] != '"' {
                return None;
            }
            let text = string_of(&lit);
            match read_literal(text.as_str()) {
                Some(key) => Some(Marker { kind, key: Some(CellKey { text: key }) }),
                None => None,
            }
        },
        None => None,
    }
}

/// The number of leading `# `s of `v` from `at` on.
fn count_comments(v: &Vec<char>, at: usize) -> (r: usize)
    requires
        at <= v@.len(),
    ensures
        r == comment_depth(v@.skip(at as int)),
        at + 2 * r <= v.len(),
{
    proof {
        reveal_strlit("# ");
    }
    let mut i: usize = at;
    let mut k: usize = 0;
    while v.len() - i >= 2 && v[i] == '#' && v[i + 1] == ' '
        invariant
            at <= i <= v@.len(),
            i == at + 2 * k,
            comment_depth(v@.skip(at as int)) == comment_depth(v@.skip(i as int)) + k,
            "# "@ =~= seq!['#', ' '],
        decreases v@.len() - i,
    {
        let ghost s = v@.skip(i as int);
        assert(s.take(2) =~= "# "@);
        assert(s.skip(2) =~= v@.skip(i + 2));
        i += 2;
        k += 1;
    }
    proof {
        let s = v@.skip(i as int);
        if starts_with(s, "# "@) {
            assert(s.take(2)[0] == '#' && s.take(2)[1] == ' ');
        }
    }
    k
}

fn marker_depth(v: &Vec<char>) -> (r: usize)
    ensures
        r == depth_of_marker(v@),
{
    assert(v@.skip(0) =~= v@);
    let depth = count_comments(v, 0);
    let body = rest(v, 2 * depth);
    match after_prefix(&body, "%%") {
        Some(tail) => {
            let parsed = parse_marker_tail(&tail);
            if depth > 0 && parsed.is_some() {
                depth
            } else {
                0
            }
        },
        None => 0,
    }
}

fn escape_marker(v: Vec<char>) -> (r: Vec<char>)
    ensures
        r@ == marker_escaped(v@),
{
    if marker_depth(&v) >= 1 {
        commented(&v)
    } else {
        v
    }
}

fn unescape_marker(v: Vec<char>) -> (r: Vec<char>)
    ensures
        r@ == marker_unescaped(v@),
{
    proof {
        lemma_depth_fits(v@);
    }
    if marker_depth(&v) >= 2 {
        rest(&v, 2)
    } else {
        v
    }
}

fn count_indent(v: &Vec<char>) -> (r: usize)
    ensures
        r == indent_of(v@),
        r <= v@.len(),
{
    let mut i: usize = 0;
    assert(v@.skip(0) =~= v@);
    while i < v.len() && (v[i] == ' ' || v[i] == '\t')
        invariant
            i <= v@.len(),
            indent_of(v@) == indent_of(v@.skip(i as int)) + i,
        decreases v@.len() - i,
    {
        assert(v@.skip(i as int).skip(1) =~= v@.skip(i + 1));
        i += 1;
    }
    i
}

fn starts_magic(v: &Vec<char>) -> (r: bool)
    ensures
        r == begins_magic(v@),
{
    if v.len() < 2 {
        return false;
    }
    if v[0] == '%' {
        (v.len() >= 3 && v[1] == '%' && (is_letter(v[2]) || v[2] == '_')) || is_letter(v[1])
            || v[1] == '_'
    } else {
        let c = v[1];
        v[0] == '!' && !(c == ' ' || c == '\t' || c == '\n' || c == '\r' || c == '\u{c}') && c != '='
    }
}

fn is_letter(c: char) -> (r: bool)
    ensures
        r == letter(c),
{
    ('a' <= c && c <= 'z') || ('A' <= c && c <= 'Z')
}

fn is_magic_target(v: &Vec<char>) -> (r: bool)
    ensures
        r == magic_target(v@),
{
    if v.len() == 0 || !(is_letter(v[0]) || v[0] == '_') {
        return false;
    }
    let mut i: usize = 0;
    while i < v.len()
        invariant
            i <= v@.len(),
            forall|j: int|
                0 <= j < i ==> letter(#[trigger] v@[j]) || digit(v@[j]) || v@[j] == '_' || v@[j]
                    == '.' || v@[j] == ',' || v@[j] == ' ',
        decreases v@.len() - i,
    {
        let c = v[i];
        let ok = is_letter(c) || ('0' <= c && c <= '9') || c == '_' || c == '.' || c == ',' || c
            == ' ';
        if !ok {
            return false;
        }
        i += 1;
    }
    true
}

/// Whether `v` begins a magic, a shell escape, or an assignment from one.
fn is_magic_body(v: &Vec<char>) -> (r: bool)
    ensures
        r == is_magic(v@),
{
    if starts_magic(v) {
        return true;
    }
    let eq = find_char_in(v, '=');
    if eq >= v.len() {
        return false;
    }
    assert(v@.subrange(0, eq as int) =~= v@.take(eq as int));
    let lhs = trim_end_chars(&substr(v, 0, eq));
    let rhs = rest(v, eq + 1);
    if rhs.len() > 0 && rhs[0] == '=' {
        return false;
    }
    is_magic_target(&lhs) && starts_magic(&trim_start_chars(&rhs))
}

fn escape_magic(v: &Vec<char>) -> (r: Vec<char>)
    ensures
        r@ == magic_escaped(v@),
{
    let indent = count_indent(v);
    let k = count_comments(v, indent);
    let body = rest(v, indent + 2 * k);
    assert(body@ =~= comment_body(v@.skip(indent as int)));
    assert(v@.subrange(0, indent as int) =~= v@.take(indent as int));
    if is_magic_body(&body) {
        let mut out = substr(v, 0, indent);
        append_chars(&mut out, &chars_of("# "));
        append_chars(&mut out, &rest(v, indent));
        out
    } else {
        rest(v, 0)
    }
}

fn unescape_magic(v: Vec<char>) -> (r: Vec<char>)
    ensures
        r@ == magic_unescaped(v@),
{
    let indent = count_indent(&v);
    let k = count_comments(&v, indent);
    let body = rest(&v, indent + 2 * k);
    assert(body@ =~= comment_body(v@.skip(indent as int)));
    assert(v@.subrange(0, indent as int) =~= v@.take(indent as int));
    if k >= 1 && is_magic_body(&body) {
        let mut out = substr(&v, 0, indent);
        assert(v@.skip(indent + 2) =~= v@.skip(indent as int).skip(2));
        append_chars(&mut out, &rest(&v, indent + 2));
        out
    } else {
        v
    }
}

proof fn lemma_depth_fits(s: Seq<char>)
    ensures
        2 * comment_depth(s) <= s.len(),
        depth_of_marker(s) <= comment_depth(s),
    decreases s.len(),
{
    reveal_strlit("# ");
    if starts_with(s, "# "@) {
        lemma_depth_fits(s.skip(2));
    }
}

/// One more `# ` in front counts one more and leaves the body.
proof fn lemma_comment(s: Seq<char>)
    ensures
        comment_depth("# "@ + s) == comment_depth(s) + 1,
        comment_body("# "@ + s) == comment_body(s),
        ("# "@ + s).skip(2) == s,
        starts_with("# "@ + s, "# "@),
{
    reveal_strlit("# ");
    let t = "# "@ + s;
    assert(t.skip(2) =~= s);
    assert(t.take(2) =~= "# "@);
    lemma_depth_fits(s);
    lemma_depth_fits(t);
    assert(comment_body(t) =~= comment_body(s));
}

/// Escaping a marker-like line can be undone.
pub proof fn marker_escape_round_trip(s: Seq<char>)
    ensures
        marker_unescaped(marker_escaped(s)) == s,
{
    lemma_comment(s);
}

/// An escaped line is no marker.
pub proof fn escaped_is_no_marker(s: Seq<char>)
    ensures
        py_parsed(marker_escaped(s)) is None,
{
    let t = marker_escaped(s);
    lemma_comment(s);
    if py_parsed(t) is Some {
        reveal_strlit("# ");
        reveal_strlit("# %%");
        reveal_strlit("%%");
        let tail = t.skip(4);
        assert(t.take(4) == "# %%"@);
        assert(t[0] == t.take(4)[0] && t[1] == t.take(4)[1] && t[2] == t.take(4)[2] && t[3]
            == t.take(4)[3]);
        assert(t.take(2) =~= "# "@);
        let u = t.skip(2);
        if starts_with(u, "# "@) {
            assert(u.take(2)[0] == '#');
        }
        assert(comment_depth(u) == 0);
        assert(comment_depth(t) == 1);
        assert(u.take(2) =~= "%%"@);
        assert(u.skip(2) =~= tail);
        assert(comment_body(t) =~= u);
        assert(depth_of_marker(t) == 1);
    }
}

proof fn lemma_indent(s: Seq<char>)
    ensures
        indent_of(s) <= s.len(),
        forall|i: int| 0 <= i < indent_of(s) ==> #[trigger] s[i] == ' ' || s[i] == '\t',
        indent_of(s) < s.len() ==> s[indent_of(s) as int] != ' ' && s[indent_of(s) as int] != '\t',
    decreases s.len(),
{
    if s.len() > 0 && (s[0] == ' ' || s[0] == '\t') {
        let t = s.skip(1);
        lemma_indent(t);
        assert forall|i: int| 0 <= i < indent_of(s) implies #[trigger] s[i] == ' ' || s[i]
            == '\t' by {
            if i > 0 {
                assert(t[i - 1] == s[i]);
            }
        }
        if indent_of(s) < s.len() {
            assert(t[indent_of(t) as int] == s[indent_of(s) as int]);
        }
    }
}

proof fn lemma_indent_is(s: Seq<char>, n: int)
    requires
        0 <= n < s.len(),
        forall|i: int| 0 <= i < n ==> #[trigger] s[i] == ' ' || s[i] == '\t',
        s[n] != ' ' && s[n] != '\t',
    ensures
        indent_of(s) == n,
{
    lemma_indent(s);
    let m = indent_of(s) as int;
    if m < n {
        assert(s[m] == ' ' || s[m] == '\t');
    } else if n < m {
        assert(s[n] == ' ' || s[n] == '\t');
    }
}

/// Escaping a magic can be undone.
pub proof fn magic_escape_round_trip(s: Seq<char>)
    ensures
        magic_unescaped(magic_escaped(s)) == s,
{
    reveal_strlit("# ");
    let n = indent_of(s) as int;
    lemma_indent(s);
    let tail = s.skip(n);
    if is_magic(comment_body(tail)) {
        let t = magic_escaped(s);
        assert(t[n] == '#');
        assert forall|i: int| 0 <= i < n implies #[trigger] t[i] == ' ' || t[i] == '\t' by {
            assert(t[i] == s[i]);
        }
        lemma_indent_is(t, n);
        assert(t.skip(n) =~= "# "@ + tail);
        lemma_comment(tail);
        assert(t.take(n) =~= s.take(n));
        assert(magic_unescaped(t) =~= s);
    }
}

/// A source line comes back from its buffer line.
pub proof fn line_round_trip(kind: CellKind, s: Seq<char>)
    ensures
        py_unline(kind, py_line(kind, s)) == s,
{
    reveal_strlit("#");
    reveal_strlit("# ");
    marker_escape_round_trip(magic_escaped(s));
    magic_escape_round_trip(s);
    let c = if s.len() == 0 {
        "#"@
    } else {
        "# "@ + s
    };
    marker_escape_round_trip(c);
    lemma_comment(s);
    if s.len() > 0 {
        assert(c.len() > 1);
    } else {
        assert(s =~= Seq::empty());
    }
}

/// Projecting a source and reading it back gives the source.
pub proof fn buffer_round_trip(kind: CellKind, source: Seq<char>)
    ensures
        PythonProjection.source_of(kind, PythonProjection.lines_of(kind, source)) == source,
{
    let parts = split(source, '\n');
    let back = py_lines(kind, source).map_values(|l: Seq<char>| py_unline(kind, l));
    assert forall|i: int| 0 <= i < parts.len() implies back[i] == parts[i] by {
        line_round_trip(kind, parts[i]);
    }
    assert(back =~= parts);
    lemma_join_split(source, '\n');
}

/// No line of a projected source is a marker.
pub proof fn buffer_holds_no_marker(kind: CellKind, source: Seq<char>, i: int)
    requires
        0 <= i < PythonProjection.lines_of(kind, source).len(),
    ensures
        PythonProjection.marker_of(PythonProjection.lines_of(kind, source)[i]) is None,
{
    let s = split(source, '\n')[i];
    escaped_is_no_marker(magic_escaped(s));
    escaped_is_no_marker(
        if s.len() == 0 {
            "#"@
        } else {
            "# "@ + s
        },
    );
}

/// An ordinary line of code is shown as it is: one that begins with neither a comment, a `%`
/// nor a `!`, after whatever indentation, and assigns nothing.
pub proof fn ordinary_code_is_shown_as_it_is(blanks: Seq<char>, s: Seq<char>)
    requires
        forall|i: int| 0 <= i < blanks.len() ==> #[trigger] blanks[i] == ' ' || blanks[i] == '\t',
        s.len() > 0,
        s[0] != '#' && s[0] != '%' && s[0] != '!' && s[0] != ' ' && s[0] != '\t',
        !s.contains('='),
    ensures
        py_line(CellKind::Code, blanks + s) == blanks + s,
        py_unline(CellKind::Code, blanks + s) == blanks + s,
{
    let line = blanks + s;
    lemma_blanks(blanks, s);
    let n = blanks.len() as int;
    assert(line.skip(n) =~= s);
    reveal_strlit("# ");
    lemma_no_comment(s);
    lemma_find_none(s, '=');
    assert(comment_body(s) =~= s);
    lemma_no_comment(line);
}

proof fn lemma_find_none(s: Seq<char>, c: char)
    requires
        !s.contains(c),
    ensures
        find_char(s, c) == s.len(),
    decreases s.len(),
{
    if s.len() > 0 {
        assert(s[0] != c) by {
            if s[0] == c {
                assert(s.contains(c));
            }
        }
        assert(!s.skip(1).contains(c)) by {
            if s.skip(1).contains(c) {
                let i = choose|i: int| 0 <= i < s.skip(1).len() && s.skip(1)[i] == c;
                assert(s[i + 1] == c);
            }
        }
        lemma_find_none(s.skip(1), c);
    }
}

proof fn lemma_blanks(blanks: Seq<char>, s: Seq<char>)
    requires
        forall|i: int| 0 <= i < blanks.len() ==> #[trigger] blanks[i] == ' ' || blanks[i] == '\t',
        s.len() > 0,
        s[0] != ' ' && s[0] != '\t',
    ensures
        indent_of(blanks + s) == blanks.len(),
    decreases blanks.len(),
{
    let line = blanks + s;
    if blanks.len() > 0 {
        assert(line[0] == blanks[0]);
        assert(line.skip(1) =~= blanks.skip(1) + s);
        assert forall|i: int| 0 <= i < blanks.skip(1).len() implies #[trigger] blanks.skip(1)[i] == ' '
            || blanks.skip(1)[i] == '\t' by {
            assert(blanks[i + 1] == ' ' || blanks[i + 1] == '\t');
        }
        lemma_blanks(blanks.skip(1), s);
    } else {
        assert(line[0] == s[0]);
    }
}

proof fn lemma_no_comment(s: Seq<char>)
    requires
        s.len() > 0,
        s[0] != '#',
    ensures
        comment_depth(s) == 0,
        depth_of_marker(s) == 0,
{
    reveal_strlit("# ");
    if starts_with(s, "# "@) {
        assert(s.take(2)[0] == "# "@[0]);
    }
}

/// A magic or a shell command, which is no Python, stands behind a comment sign, after its
/// indentation.
pub proof fn magics_are_commented_out(blanks: Seq<char>, s: Seq<char>)
    requires
        forall|i: int| 0 <= i < blanks.len() ==> #[trigger] blanks[i] == ' ' || blanks[i] == '\t',
        s.len() >= 2,
        (s[0] == '%' && letter(s[1])) || (s[0] == '!' && (letter(s[1]) || digit(s[1]))),
    ensures
        py_line(CellKind::Code, blanks + s) == blanks + seq!['#', ' '] + s,
        py_unline(CellKind::Code, blanks + seq!['#', ' '] + s) == blanks + s,
{
    let line = blanks + s;
    let n = blanks.len() as int;
    reveal_strlit("# ");
    reveal_strlit("%%");
    assert("# "@ =~= seq!['#', ' ']);
    lemma_blanks(blanks, s);
    assert(line.skip(n) =~= s);
    assert(line.take(n) =~= blanks);
    lemma_no_comment(s);
    assert(comment_body(s) =~= s);
    let out = blanks + seq!['#', ' '] + s;
    assert(magic_escaped(line) =~= out);
    let c = seq!['#', ' '] + s;
    assert(out =~= blanks + c);
    assert(c.take(2) =~= "# "@);
    assert(c.skip(2) =~= s);
    assert(comment_depth(c) == 1);
    assert(comment_body(c) =~= s);
    assert(!starts_with(s, "%%"@)) by {
        if starts_with(s, "%%"@) {
            assert(s.take(2)[1] == "%%"@[1]);
        }
    }
    if n > 0 {
        assert(out[0] == blanks[0]);
        lemma_no_comment(out);
    } else {
        assert(out =~= c);
    }
    assert(marker_escaped(out) == out);
    lemma_blanks(blanks, c);
    assert((blanks + c).skip(n) =~= c);
    assert((blanks + c).take(n) =~= blanks);
}

/// A line of text, in a cell that is not code, stands behind a comment sign; an empty one is the
/// sign alone.
pub proof fn text_is_commented_out(kind: CellKind, s: Seq<char>)
    requires
        kind != CellKind::Code,
        s.len() > 0 ==> s[0] != '#' && s[0] != '%',
    ensures
        s.len() > 0 ==> py_line(kind, s) == seq!['#', ' '] + s,
        s.len() == 0 ==> py_line(kind, s) == seq!['#'],
{
    reveal_strlit("# ");
    reveal_strlit("#");
    reveal_strlit("%%");
    if s.len() > 0 {
        let c = "# "@ + s;
        assert(c =~= seq!['#', ' '] + s);
        assert(c.take(2) =~= "# "@);
        assert(c.skip(2) =~= s);
        lemma_no_comment(s);
        assert(comment_depth(c) == 1);
        assert(comment_body(c) =~= s);
        if starts_with(s, "%%"@) {
            assert(s.take(2)[0] == "%%"@[0]);
        }
    } else {
        assert("#"@ =~= seq!['#']);
        assert(comment_depth("#"@) == 0);
    }
}

/// A marker begins with `# %%`, says the cell's type in brackets unless it is code, and ends
/// with its key as a literal.
pub proof fn markers_say_type_and_key(kind: CellKind, key: Seq<char>)
    ensures
        ({
            let m = py_marker(kind, key);
            let lit = json_literal(key);
            let id = seq![' ', 'i', 'd', '='];
            &&& m.take(4) == seq!['#', ' ', '%', '%']
            &&& kind == CellKind::Code ==> m.skip(4) == id + lit
            &&& kind == CellKind::Markdown ==> m.skip(4) == seq![' ', '['] + "markdown"@ + seq![']']
                + id + lit
            &&& kind == CellKind::Raw ==> m.skip(4) == seq![' ', '['] + "raw"@ + seq![']'] + id + lit
        }),
{
    reveal_strlit("# %% id=");
    reveal_strlit("# %% [markdown] id=");
    reveal_strlit("# %% [raw] id=");
    reveal_strlit("markdown");
    reveal_strlit("raw");
    let m = py_marker(kind, key);
    let lit = json_literal(key);
    let id = seq![' ', 'i', 'd', '='];
    assert(m.take(4) =~= seq!['#', ' ', '%', '%']);
    match kind {
        CellKind::Code => {
            assert(m.skip(4) =~= id + lit);
        },
        CellKind::Markdown => {
            assert(m.skip(4) =~= seq![' ', '['] + "markdown"@ + seq![']'] + id + lit);
        },
        CellKind::Raw => {
            assert(m.skip(4) =~= seq![' ', '['] + "raw"@ + seq![']'] + id + lit);
        },
    }
}

/// Each line of a source is a line of the buffer.
pub proof fn lines_stay_lines(kind: CellKind, lines: Seq<Seq<char>>, i: int)
    requires
        0 <= i < lines.len(),
        forall|j: int| 0 <= j < lines.len() ==> !(#[trigger] lines[j]).contains('\n'),
    ensures
        py_lines(kind, join(lines, one('\n'))).len() == lines.len(),
        py_lines(kind, join(lines, one('\n')))[i] == py_line(kind, lines[i]),
{
    crate::text::lemma_split_join(lines, '\n');
}

proof fn lemma_first_equals(a: Seq<char>, b: Seq<char>)
    requires
        forall|i: int| 0 <= i < a.len() ==> #[trigger] a[i] != '=',
    ensures
        find_char(a + seq!['='] + b, '=') == a.len(),
    decreases a.len(),
{
    let s = a + seq!['='] + b;
    if a.len() > 0 {
        assert(s[0] == a[0]);
        assert(s.skip(1) =~= a.skip(1) + seq!['='] + b);
        assert forall|i: int| 0 <= i < a.skip(1).len() implies #[trigger] a.skip(1)[i] != '=' by {
            assert(a[i + 1] != '=');
        }
        lemma_first_equals(a.skip(1), b);
    }
}

/// An assignment from a magic or a shell command stands behind a comment sign too.
pub proof fn assigned_magics_are_commented_out(name: Seq<char>, m: Seq<char>)
    requires
        name.len() > 0,
        forall|i: int| 0 <= i < name.len() ==> letter(#[trigger] name[i]),
        m.len() >= 2,
        (m[0] == '%' && letter(m[1])) || (m[0] == '!' && (letter(m[1]) || digit(m[1]))),
    ensures
        ({
            let s = name + seq![' ', '=', ' '] + m;
            &&& py_line(CellKind::Code, s) == seq!['#', ' '] + s
            &&& py_unline(CellKind::Code, seq!['#', ' '] + s) == s
        }),
{
    let s = name + seq![' ', '=', ' '] + m;
    let none = Seq::<char>::empty();
    reveal_strlit("# ");
    reveal_strlit("%%");
    assert("# "@ =~= seq!['#', ' ']);
    assert(letter(name[0]));
    assert(none + s =~= s);
    lemma_blanks(none, s);
    assert(s.skip(0) =~= s);
    assert(s.take(0) =~= none);
    lemma_no_comment(s);
    assert(comment_body(s) =~= s);
    let left = name.push(' ');
    let right = seq![' '] + m;
    assert(s =~= left + seq!['='] + right);
    assert forall|i: int| 0 <= i < left.len() implies #[trigger] left[i] != '=' by {
        if i < name.len() {
            assert(letter(name[i]));
        }
    }
    lemma_first_equals(left, right);
    let eq = left.len() as int;
    assert(s.take(eq) =~= left);
    assert(s.skip(eq + 1) =~= right);
    assert(left.drop_last() =~= name);
    assert(letter(name[name.len() - 1]));
    assert(trimmed_end(name) == name);
    assert(trimmed_end(left) == name);
    assert(right.skip(1) =~= m);
    assert(trimmed_start(m) == m);
    assert(trimmed_start(right) == m);
    assert(is_magic(s));
    let c = seq!['#', ' '] + s;
    assert(magic_escaped(s) =~= c);
    assert(c.take(2) =~= "# "@);
    assert(c.skip(2) =~= s);
    assert(comment_depth(c) == 1);
    assert(comment_body(c) =~= s);
    if starts_with(s, "%%"@) {
        assert(s.take(2)[0] == "%%"@[0]);
        assert(s[0] == name[0]);
    }
    assert(none + c =~= c);
    lemma_blanks(none, c);
    assert(c.skip(0) =~= c);
    assert(c.take(0) =~= none);
    assert(none + c.skip(2) =~= s);
}

} // verus!
