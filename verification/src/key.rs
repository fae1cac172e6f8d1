//! Cell identity.

use crate::text::{chars_of, str_eq, string_of};
use vstd::prelude::*;
use vstd::relations::injective_on;
use vstd::set_lib::*;

verus! {

/// A cell's identity for the lifetime of a session. Unique among live and tombstoned cells.
#[derive(Debug, PartialEq, Eq, Hash, PartialOrd, Ord)]
pub struct CellKey {
    pub text: String,
}

impl View for CellKey {
    type V = Seq<char>;

    open spec fn view(&self) -> Seq<char> {
        self.text@
    }
}

impl Clone for CellKey {
    fn clone(&self) -> (r: Self)
        ensures
            r@ == self@,
    {
        CellKey { text: self.text.clone() }
    }
}

/// The texts of keys.
pub open spec fn keys(v: Seq<CellKey>) -> Seq<Seq<char>> {
    Seq::new(v.len(), |i: int| v[i]@)
}

/// Where `key` stands among `v`, or the length of `v`.
pub fn find_key(v: &Vec<CellKey>, key: &CellKey) -> (r: usize)
    ensures
        r <= v@.len(),
        r < v@.len() ==> v@[r as int]@ == key@,
        forall|i: int| 0 <= i < r ==> (#[trigger] v@[i])@ != key@,
        (r < v@.len()) == keys(v@).contains(key@),
{
    let mut i: usize = 0;
    while i < v.len()
        invariant
            i <= v@.len(),
            forall|j: int| 0 <= j < i ==> (#[trigger] v@[j])@ != key@,
        decreases v@.len() - i,
    {
        if v[i].same(key) {
            assert(keys(v@)[i as int] == key@);
            return i;
        }
        i += 1;
    }
    assert(!keys(v@).contains(key@)) by {
        assert forall|j: int| 0 <= j < keys(v@).len() implies keys(v@)[j] != key@ by {
            assert(v@[j]@ != key@);
        }
    }
    i
}

/// A character that a cell id may hold.
pub open spec fn id_char(c: char) -> bool {
    'a' <= c <= 'z' || 'A' <= c <= 'Z' || '0' <= c <= '9' || c == '-' || c == '_'
}

/// A valid nbformat 4.5 cell id: 1–64 characters of `[a-zA-Z0-9-_]`.
pub open spec fn valid_id(s: Seq<char>) -> bool {
    1 <= s.len() <= 64 && forall|i: int| 0 <= i < s.len() ==> id_char(#[trigger] s[i])
}

impl CellKey {
    pub fn new(s: &str) -> (r: CellKey)
        ensures
            r@ == s@,
    {
        CellKey { text: s.to_string() }
    }

    pub fn as_str(&self) -> (r: &str)
        ensures
            r@ == self@,
    {
        self.text.as_str()
    }

    /// Whether both are the same key.
    pub fn same(&self, other: &CellKey) -> (r: bool)
        ensures
            r == (self@ == other@),
    {
        str_eq(self.text.as_str(), other.text.as_str())
    }

    /// Whether `s` is a valid nbformat 4.5 cell id: 1–64 characters of `[a-zA-Z0-9-_]`.
    pub fn is_valid_nbformat_id(s: &str) -> (r: bool)
        ensures
            r == valid_id(s@),
    {
        let mut n: usize = 0;
        for c in it: s.chars()
            invariant
                it.seq() == s@,
                n == it.index() <= 64,
                forall|i: int| 0 <= i < n ==> id_char(#[trigger] s@[i]),
        {
            let ok = ('a' <= c && c <= 'z') || ('A' <= c && c <= 'Z') || ('0' <= c && c <= '9')
                || c == '-' || c == '_';
            if !ok || n == 64 {
                assert(s@[n as int] == c);
                return false;
            }
            n += 1;
        }
        n >= 1
    }
}

/// A lower-case hexadecimal digit.
pub open spec fn hex_digit(d: int) -> char {
    if d == 0 {
        '0'
    } else if d == 1 {
        '1'
    } else if d == 2 {
        '2'
    } else if d == 3 {
        '3'
    } else if d == 4 {
        '4'
    } else if d == 5 {
        '5'
    } else if d == 6 {
        '6'
    } else if d == 7 {
        '7'
    } else if d == 8 {
        '8'
    } else if d == 9 {
        '9'
    } else if d == 10 {
        'a'
    } else if d == 11 {
        'b'
    } else if d == 12 {
        'c'
    } else if d == 13 {
        'd'
    } else if d == 14 {
        'e'
    } else {
        'f'
    }
}

/// Eight hexadecimal digits, the most significant first.
pub open spec fn hex8(n: int) -> Seq<char> {
    seq![
        hex_digit(n / 0x1000_0000 % 16),
        hex_digit(n / 0x100_0000 % 16),
        hex_digit(n / 0x10_0000 % 16),
        hex_digit(n / 0x1_0000 % 16),
        hex_digit(n / 0x1000 % 16),
        hex_digit(n / 0x100 % 16),
        hex_digit(n / 0x10 % 16),
        hex_digit(n % 16),
    ]
}

/// The number of texts of eight hexadecimal digits.
pub const KEYS: u64 = 0x1_0000_0000;

proof fn lemma_hex_digit(a: int, b: int)
    requires
        0 <= a < 16,
        0 <= b < 16,
        hex_digit(a) == hex_digit(b),
    ensures
        a == b,
{
}

/// Different numbers have different digits.
pub proof fn lemma_hex8_injective(a: int, b: int)
    requires
        0 <= a < KEYS,
        0 <= b < KEYS,
        hex8(a) == hex8(b),
    ensures
        a == b,
{
    let x = hex8(a);
    let y = hex8(b);
    assert(x[0] == y[0] && x[1] == y[1] && x[2] == y[2] && x[3] == y[3]);
    assert(x[4] == y[4] && x[5] == y[5] && x[6] == y[6] && x[7] == y[7]);
    lemma_step(a, b, 0x1000_0000, 0x1_0000_0000);
    lemma_step(a, b, 0x100_0000, 0x1000_0000);
    lemma_step(a, b, 0x10_0000, 0x100_0000);
    lemma_step(a, b, 0x1_0000, 0x10_0000);
    lemma_step(a, b, 0x1000, 0x1_0000);
    lemma_step(a, b, 0x100, 0x1000);
    lemma_step(a, b, 0x10, 0x100);
    lemma_step(a, b, 1, 0x10);
}

/// Numbers that agree above a digit, and in that digit, agree from that digit up.
proof fn lemma_step(a: int, b: int, unit: int, next: int)
    requires
        0 <= a,
        0 <= b,
        unit > 0,
        next == unit * 16,
        a / next == b / next,
        hex_digit(a / unit % 16) == hex_digit(b / unit % 16),
    ensures
        a / unit == b / unit,
{
    lemma_hex_digit(a / unit % 16, b / unit % 16);
    vstd::arithmetic::div_mod::lemma_div_denominator(a, unit, 16);
    vstd::arithmetic::div_mod::lemma_div_denominator(b, unit, 16);
}

/// Eight hexadecimal digits are a valid cell id.
pub proof fn lemma_hex8_valid(n: int)
    ensures
        valid_id(hex8(n)),
{
    assert forall|i: int| 0 <= i < 8 implies id_char(#[trigger] hex8(n)[i]) by {}
}

pub(crate) fn hex_char(d: u32) -> (r: char)
    requires
        d < 16,
    ensures
        r == hex_digit(d as int),
{
    match d {
        0 => '0',
        1 => '1',
        2 => '2',
        3 => '3',
        4 => '4',
        5 => '5',
        6 => '6',
        7 => '7',
        8 => '8',
        9 => '9',
        10 => 'a',
        11 => 'b',
        12 => 'c',
        13 => 'd',
        14 => 'e',
        _ => 'f',
    }
}

/// A number's eight hexadecimal digits.
pub fn hex8_of(n: u32) -> (r: String)
    ensures
        r@ == hex8(n as int),
{
    let mut s = String::new();
    s.push(hex_char(n / 0x1000_0000 % 16));
    s.push(hex_char(n / 0x100_0000 % 16));
    s.push(hex_char(n / 0x10_0000 % 16));
    s.push(hex_char(n / 0x1_0000 % 16));
    s.push(hex_char(n / 0x1000 % 16));
    s.push(hex_char(n / 0x100 % 16));
    s.push(hex_char(n / 0x10 % 16));
    s.push(hex_char(n % 16));
    assert(s@ =~= hex8(n as int));
    s
}

/// A key as it is made: the eight hexadecimal digits of a number, which are a valid id.
pub open spec fn made_key(k: Seq<char>) -> bool {
    valid_id(k) && exists|draw: u32| k == #[trigger] hex8(draw as int)
}

/// `rand::random` draws any number.
#[verifier::external_body]
fn random_u32() -> (r: u32) {
    rand::random::<u32>()
}

/// Mints fresh keys that never collide with any key it has seen.
#[derive(Debug)]
pub struct KeyMinter {
    pub used: Vec<CellKey>,
}

impl View for KeyMinter {
    type V = Set<Seq<char>>;

    /// The keys it has seen.
    open spec fn view(&self) -> Set<Seq<char>> {
        keys(self.used@).to_set()
    }
}

impl Default for KeyMinter {
    fn default() -> (r: Self)
        ensures
            r.wf(),
            r@ == Set::<Seq<char>>::empty(),
    {
        let r = KeyMinter { used: Vec::new() };
        assert(r@ =~= Set::<Seq<char>>::empty());
        r
    }
}

impl KeyMinter {
    /// No key is recorded twice.
    pub open spec fn wf(&self) -> bool {
        keys(self.used@).no_duplicates()
    }

    /// Records `key` as used. Returns false if it was already used.
    pub fn reserve(&mut self, key: &CellKey) -> (r: bool)
        requires
            old(self).wf(),
        ensures
            final(self).wf(),
            r == !old(self)@.contains(key@),
            final(self)@ == old(self)@.insert(key@),
    {
        if self.is_used(key) {
            assert(self@ =~= old(self)@.insert(key@));
            return false;
        }
        let ghost s = keys(self.used@);
        self.used.push(key.clone());
        proof {
            let t = keys(self.used@);
            assert(t =~= s.push(key@));
            assert(!s.contains(key@));
            lemma_push_set(s, key@);
            assert forall|i: int, j: int| 0 <= i < j < t.len() implies t[i] != t[j] by {
                if j == s.len() {
                    assert(s.contains(s[i]));
                }
            }
        }
        true
    }

    pub fn is_used(&self, key: &CellKey) -> (r: bool)
        ensures
            r == self@.contains(key@),
    {
        find_key(&self.used, key) < self.used.len()
    }

    /// Records the key drawn, if it is not used.
    pub fn mint_drawn(&mut self, draw: u32) -> (r: Option<CellKey>)
        requires
            old(self).wf(),
        ensures
            final(self).wf(),
            final(self)@ == old(self)@.insert(hex8(draw as int)),
            match r {
                Some(k) => k@ == hex8(draw as int) && !old(self)@.contains(k@),
                None => old(self)@.contains(hex8(draw as int)),
            },
    {
        let key = CellKey { text: hex8_of(draw) };
        if self.reserve(&key) {
            Some(key)
        } else {
            None
        }
    }

    /// Jupyter's convention: 8 random hex characters. Longer only once all of these are used.
    pub fn mint(&mut self) -> (r: CellKey)
        requires
            old(self).wf(),
        ensures
            final(self).wf(),
            !old(self)@.contains(r@),
            final(self)@ == old(self)@.insert(r@),
            old(self)@.len() < KEYS ==> made_key(r@),
    {
        let mut tries: u32 = u32::MAX;
        while tries > 0
            invariant
                self.wf(),
                self@ == old(self)@,
            decreases tries,
        {
            let draw = random_u32();
            if let Some(key) = self.mint_drawn(draw) {
                proof {
                    lemma_hex8_valid(draw as int);
                }
                return key;
            }
            assert(self@ =~= old(self)@);
            tries -= 1;
        }
        // Luck has run out: the keys in order.
        let mut draw: u32 = 0;
        loop
            invariant
                self.wf(),
                self@ == old(self)@,
                forall|i: int| 0 <= i < draw ==> self@.contains(#[trigger] hex8(i)),
            ensures
                self.wf(),
                self@ == old(self)@,
                self@.len() >= KEYS,
            decreases KEYS - draw,
        {
            if let Some(key) = self.mint_drawn(draw) {
                proof {
                    lemma_hex8_valid(draw as int);
                }
                return key;
            }
            assert(self@ =~= old(self)@);
            if draw == u32::MAX {
                proof {
                    lemma_all_used(self.used@);
                }
                break;
            }
            draw += 1;
        }
        let key = self.longer_key();
        let _ = self.reserve(&key);
        key
    }

    /// A key longer than every key seen.
    fn longer_key(&self) -> (r: CellKey)
        ensures
            !self@.contains(r@),
    {
        let mut most: usize = 0;
        let mut i: usize = 0;
        while i < self.used.len()
            invariant
                i <= self.used@.len(),
                forall|j: int| 0 <= j < i ==> (#[trigger] self.used@[j])@.len() <= most,
            decreases self.used@.len() - i,
        {
            let n = chars_of(self.used[i].as_str()).len();
            if n > most {
                most = n;
            }
            i += 1;
        }
        let mut out: Vec<char> = Vec::new();
        while out.len() <= most
            invariant
                out@.len() <= most + 1,
            decreases most + 1 - out@.len(),
        {
            out.push('0');
        }
        let r = CellKey { text: string_of(&out) };
        proof {
            let s = keys(self.used@);
            assert forall|j: int| 0 <= j < s.len() implies s[j] != r@ by {
                assert(self.used@[j]@.len() <= most);
            }
        }
        r
    }
}

pub proof fn lemma_push_set(s: Seq<Seq<char>>, k: Seq<char>)
    ensures
        s.push(k).to_set() == s.to_set().insert(k),
{
    let t = s.push(k);
    assert forall|x: Seq<char>| t.contains(x) == s.to_set().insert(k).contains(x) by {
        if t.contains(x) {
            let i = choose|i: int| 0 <= i < t.len() && t[i] == x;
            if i < s.len() {
                assert(s[i] == x);
            }
        }
        if s.contains(x) {
            let i = choose|i: int| 0 <= i < s.len() && s[i] == x;
            assert(t[i] == x);
        }
        if x == k {
            assert(t[s.len() as int] == k);
        }
    }
    assert(t.to_set() =~= s.to_set().insert(k));
}

/// A minter that has seen every key there is has seen that many.
proof fn lemma_all_used(used: Seq<CellKey>)
    requires
        forall|i: int| 0 <= i < KEYS ==> keys(used).to_set().contains(#[trigger] hex8(i)),
    ensures
        keys(used).to_set().len() >= KEYS,
{
    let all = set_int_range(0, KEYS as int);
    let f = |i: int| hex8(i);
    lemma_int_range(0, KEYS as int);
    assert(injective_on(f, all)) by {
        assert forall|a: int, b: int|
            all.contains(a) && all.contains(b) && #[trigger] f(a) == #[trigger] f(b) implies a
            == b by {
            lemma_hex8_injective(a, b);
        }
    }
    lemma_map_size(all, all.map(f), f);
    let s = keys(used).to_set();
    assert(s.finite()) by {
        broadcast use vstd::seq_lib::seq_to_set_is_finite;

    }
    assert(all.map(f).subset_of(s));
    lemma_len_subset(all.map(f), s);
}

/// The value of a hexadecimal digit.
pub open spec fn hex_digit_value(c: char) -> int {
    if '0' <= c <= '9' {
        c as int - '0' as int
    } else {
        c as int - 'a' as int + 10
    }
}

/// What eight hexadecimal digits come to.
pub open spec fn hex8_value(s: Seq<char>) -> int {
    let v = |i: int| hex_digit_value(s[i]);
    (((((((v(0) * 16 + v(1)) * 16 + v(2)) * 16 + v(3)) * 16 + v(4)) * 16 + v(5)) * 16 + v(6)) * 16
        + v(7))
}

proof fn lemma_hex_step(n: int, high: int, d: int)
    requires
        0 <= n,
        high == n / 16,
        d == n % 16,
    ensures
        high * 16 + d == n,
        hex_digit_value(hex_digit(d)) == d,
{
}

/// A made key is a number in full, in lower-case hexadecimal: read back, it is that number.
#[verifier::spinoff_prover]
pub proof fn made_keys_are_their_numbers(n: int)
    requires
        0 <= n < 0x1_0000_0000,
    ensures
        hex8(n).len() == 8,
        hex8_value(hex8(n)) == n,
        valid_id(hex8(n)),
{
    lemma_hex8_valid(n);
    let a = n / 0x10;
    let b = n / 0x100;
    let c = n / 0x1000;
    let d = n / 0x1_0000;
    let e = n / 0x10_0000;
    let f = n / 0x100_0000;
    let g = n / 0x1000_0000;
    assert(b == a / 16);
    assert(c == b / 16);
    assert(d == c / 16);
    assert(e == d / 16);
    assert(f == e / 16);
    assert(g == f / 16);
    assert(0 <= g < 16);
    lemma_hex_step(n, a, n % 16);
    lemma_hex_step(a, b, a % 16);
    lemma_hex_step(b, c, b % 16);
    lemma_hex_step(c, d, c % 16);
    lemma_hex_step(d, e, d % 16);
    lemma_hex_step(e, f, e % 16);
    lemma_hex_step(f, g, f % 16);
    lemma_hex_step(g, 0, g % 16);
}

} // verus!
