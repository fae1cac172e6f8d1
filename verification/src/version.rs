//! Which Neovim is there.

use crate::msg::{read_lossy, utf8_lossy};
use crate::text::{
    after_prefix, cat, cat3, chars_of, decimal, decimal_chars, find_char, find_char_in, number_in,
    parse_number, split, split_chars, string_of, strip_prefix, substr,
};
use vstd::prelude::*;

verus! {

/// The oldest Neovim that will do.
pub const MIN_NVIM: (u32, u32) = (0, 12);

/// The first line of a text, without its line break.
pub open spec fn first_line(text: Seq<char>) -> Seq<char> {
    let n = find_char(text, '\n');
    let line = text.take(n);
    if n < text.len() && line.len() > 0 && line.last() == '\r' {
        line.drop_last()
    } else {
        line
    }
}

/// Why a program is not taken for a Neovim.
pub enum NotNvim {
    /// What it says of itself does not begin as Neovim's version does.
    Stranger,
    /// The numbers cannot be read.
    Unreadable,
}

/// The version in the first line of `nvim --version`: `NVIM v0.12.5`.
pub open spec fn version_in(line: Seq<char>) -> Result<(u32, u32), NotNvim> {
    match strip_prefix(line, "NVIM v"@) {
        None => Err(NotNvim::Stranger),
        Some(v) => {
            let parts = split(v, '.');
            if parts.len() < 2 {
                Err(NotNvim::Unreadable)
            } else {
                match (number_in(parts[0], u32::MAX as nat), number_in(parts[1], u32::MAX as nat)) {
                    (Some(a), Some(b)) => Ok((a as u32, b as u32)),
                    _ => Err(NotNvim::Unreadable),
                }
            }
        },
    }
}

/// What is said of a program that is not taken for a Neovim.
pub open spec fn refusal_text(program: Seq<char>, line: Seq<char>, why: NotNvim) -> Seq<char> {
    match why {
        NotNvim::Stranger => program + " is not Neovim: "@ + line,
        NotNvim::Unreadable => "cannot read the version of "@ + program + ": "@ + line,
    }
}

/// Whether a version was read, and else why not.
pub open spec fn version_read(
    program: Seq<char>,
    text: Seq<char>,
    r: Result<(u32, u32), String>,
) -> bool {
    let line = first_line(text);
    match version_in(line) {
        Ok(v) => r == Ok::<(u32, u32), String>(v),
        Err(why) => r matches Err(e) && e@ == refusal_text(program, line, why),
    }
}

/// The version in what `nvim --version` printed.
pub fn read_version(program: &str, text: &str) -> (r: Result<(u32, u32), String>)
    ensures
        version_read(program@, text@, r),
{
    let all = chars_of(text);
    let n = find_char_in(&all, '\n');
    let mut end: usize = n;
    if n < all.len() && n > 0 && all[n - 1] == '\r' {
        end = n - 1;
    }
    let line = substr(&all, 0, end);
    proof {
        if n > 0 {
            assert(all@.take(n as int).drop_last() =~= all@.take(n - 1));
        }
        assert(line@ =~= first_line(text@));
    }
    let shown = string_of(&line);
    let v = match after_prefix(&line, "NVIM v") {
        Some(v) => v,
        None => {
            return Err(cat3(program, " is not Neovim: ", shown.as_str()));
        },
    };
    let parts = split_chars(&v, '.');
    if parts.len() >= 2 {
        assert(split(v@, '.')[0] == parts@[0]@);
        assert(split(v@, '.')[1] == parts@[1]@);
        if let (Some(major), Some(minor)) = (
            parse_number(&parts[0], u32::MAX as u64),
            parse_number(&parts[1], u32::MAX as u64),
        ) {
            return Ok((major as u32, minor as u32));
        }
    }
    let front = cat3("cannot read the version of ", program, ": ");
    Err(cat(front.as_str(), shown.as_str()))
}

/// The version in the bytes that `nvim --version` printed.
pub fn nvim_version(program: &str, stdout: &[u8]) -> (r: Result<(u32, u32), String>)
    ensures
        version_read(program@, utf8_lossy(stdout@), r),
{
    let text = read_lossy(stdout);
    read_version(program, text.as_str())
}

pub open spec fn is_older(v: (u32, u32), than: (u32, u32)) -> bool {
    v.0 < than.0 || (v.0 == than.0 && v.1 < than.1)
}

pub open spec fn version_shown(v: (u32, u32)) -> Seq<char> {
    decimal(v.0 as nat) + "."@ + decimal(v.1 as nat)
}

fn show_version(v: (u32, u32)) -> (r: String)
    ensures
        r@ == version_shown(v),
{
    cat3(
        string_of(&decimal_chars(v.0 as u64)).as_str(),
        ".",
        string_of(&decimal_chars(v.1 as u64)).as_str(),
    )
}

/// What is said of a Neovim that is too old; nothing of one that will do.
pub fn too_old(program: &str, v: (u32, u32)) -> (r: Option<String>)
    ensures
        match r {
            Some(s) => is_older(v, MIN_NVIM) && s@ == "Neovim "@ + version_shown(MIN_NVIM)
                + " or newer is required; "@ + program@ + " is "@ + version_shown(v),
            None => !is_older(v, MIN_NVIM),
        },
{
    let least = MIN_NVIM;
    if v.0 < least.0 || (v.0 == least.0 && v.1 < least.1) {
        let a = cat3("Neovim ", show_version(least).as_str(), " or newer is required; ");
        let b = cat3(a.as_str(), program, " is ");
        Some(cat(b.as_str(), show_version(v).as_str()))
    } else {
        None
    }
}

/// A version is read from the line that Neovim writes it in, whatever follows the two numbers.
pub proof fn written_version_is_read(major: u32, minor: u32, patch: Seq<char>)
    requires
        !patch.contains('.'),
    ensures
        version_in("NVIM v"@ + decimal(major as nat) + seq!['.'] + decimal(minor as nat) + seq!['.'] + patch)
            == Ok::<(u32, u32), NotNvim>((major, minor)),
{
    reveal_strlit("NVIM v");
    let a = decimal(major as nat);
    let b = decimal(minor as nat);
    let line = "NVIM v"@ + a + seq!['.'] + b + seq!['.'] + patch;
    let v = a + seq!['.'] + b + seq!['.'] + patch;
    assert(line.take(6) =~= "NVIM v"@);
    assert(line.skip(6) =~= v);
    crate::compose::decimal_round_trip(major as nat);
    crate::compose::decimal_round_trip(minor as nat);
    let parts = seq![a, b, patch];
    assert forall|i: int| 0 <= i < parts.len() implies !(#[trigger] parts[i]).contains('.') by {
        if i < 2 {
            assert forall|j: int| 0 <= j < parts[i].len() implies parts[i][j] != '.' by {
                assert(crate::text::is_digit(parts[i][j]));
            }
        }
    }
    crate::text::lemma_split_join(parts, '.');
    assert(parts.drop_last() =~= seq![a, b]);
    assert(seq![a, b].drop_last() =~= seq![a]);
    reveal_with_fuel(crate::text::join, 4);
    assert(crate::text::join(parts, crate::text::one('.')) =~= v);
    assert(a[0] != '+' && b[0] != '+');
}

/// What does not begin as Neovim's version does is refused as a stranger.
pub proof fn strangers_are_refused(line: Seq<char>)
    requires
        !crate::text::starts_with(line, "NVIM v"@),
    ensures
        version_in(line) == Err::<(u32, u32), NotNvim>(NotNvim::Stranger),
{
}

/// Versions are ordered by their first number, then by their second: of two versions one is
/// older, or they are the same, and a Neovim is too old if it is older than 0.12.
pub proof fn versions_are_ordered(v: (u32, u32), w: (u32, u32), x: (u32, u32))
    ensures
        is_older(v, w) || is_older(w, v) || v == w,
        !(is_older(v, w) && is_older(w, v)),
        is_older(v, w) && is_older(w, x) ==> is_older(v, x),
        v.0 < w.0 ==> is_older(v, w),
        v.0 == w.0 ==> (is_older(v, w) <==> v.1 < w.1),
        is_older(v, MIN_NVIM) <==> v.0 == 0 && v.1 < 12,
{
}

proof fn lemma_found_at(s: Seq<char>, c: char, n: int)
    requires
        0 <= n < s.len(),
        s[n] == c,
        forall|i: int| 0 <= i < n ==> #[trigger] s[i] != c,
    ensures
        find_char(s, c) == n,
    decreases n,
{
    if n > 0 {
        assert(s[0] != c);
        let t = s.skip(1);
        assert forall|i: int| 0 <= i < n - 1 implies #[trigger] t[i] != c by {
            assert(s[i + 1] != c);
        }
        lemma_found_at(t, c, n - 1);
    }
}

/// The version is read from the first line, whatever follows it. A program that is refused is
/// named, with the line that it wrote.
pub proof fn version_is_in_the_first_line(
    program: Seq<char>,
    line: Seq<char>,
    rest: Seq<char>,
    r: Result<(u32, u32), String>,
)
    requires
        !line.contains('\n'),
        line.len() > 0 && line.last() != '\r',
        version_read(program, line + seq!['\n'] + rest, r),
    ensures
        version_in(line) is Ok ==> r is Ok && r->Ok_0 == version_in(line)->Ok_0,
        version_in(line) is Err ==> r is Err && crate::terminal::occurs(r->Err_0@, program)
            && crate::terminal::occurs(r->Err_0@, line),
{
    let text = line + seq!['\n'] + rest;
    let n = line.len() as int;
    assert forall|i: int| 0 <= i < n implies #[trigger] text[i] != '\n' by {
        assert(line.contains(line[i]));
    }
    assert(text[n] == '\n');
    lemma_found_at(text, '\n', n);
    assert(text.take(n) =~= line);
    if version_in(line) is Err {
        let why = version_in(line)->Err_0;
        let e = refusal_text(program, line, why);
        let front = e.len() - line.len();
        assert(e.subrange(front, front + line.len()) =~= line);
        let at = match why {
            NotNvim::Stranger => 0int,
            NotNvim::Unreadable => "cannot read the version of "@.len() as int,
        };
        assert(e.subrange(at, at + program.len()) =~= program);
    }
}

} // verus!
