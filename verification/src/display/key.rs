//! The identity of a physical panel.
use vstd::prelude::*;
use crate::paths;
use crate::text;

verus! {

/// Stable identity for a physical panel. The number the system gives a display
/// changes on every reconnect; vendor, product and serial survive unplugging.
#[derive(Debug, Clone, Copy, PartialEq, Eq, Hash, Structural)]
pub struct DisplayKey {
    pub vendor: u32,
    pub model: u32,
    pub serial: u32,
}

/// Why a text is no key.
#[derive(Debug)]
pub enum KeyError {
    /// It does not have three parts.
    Shape { got: String },
    /// One of its parts is no number.
    NotANumber { part: String, got: String },
}

/// The digits it takes to write a number in base sixteen.
pub open spec fn hex_len(n: nat) -> nat
    decreases n,
{
    if n < 16 {
        1
    } else {
        1 + hex_len(n / 16)
    }
}

/// A number in base sixteen, in at least `width` digits.
pub open spec fn hex_at_least(n: nat, width: nat) -> Seq<char> {
    text::hex(
        n,
        if hex_len(n) >= width {
            hex_len(n)
        } else {
            width
        },
    )
}

/// The digits it takes to write a number in base sixteen.
fn hex_width(n: u32) -> (r: usize)
    ensures
        r == hex_len(n as nat),
        r <= 8,
{
    proof {
        reveal_with_fuel(hex_len, 9);
    }
    if n < 0x10 {
        1
    } else if n < 0x100 {
        2
    } else if n < 0x1000 {
        3
    } else if n < 0x1_0000 {
        4
    } else if n < 0x10_0000 {
        5
    } else if n < 0x100_0000 {
        6
    } else if n < 0x1000_0000 {
        7
    } else {
        8
    }
}

/// A key as it is written.
pub open spec fn written(k: DisplayKey) -> Seq<char> {
    text::decimal(k.vendor as nat) + ":"@ + text::decimal(k.model as nat) + ":"@ + text::decimal(
        k.serial as nat,
    )
}

/// A number of a key, white space around it aside.
pub open spec fn number(part: Seq<char>) -> Option<int> {
    text::unsigned_value(text::trimmed(part), u32::MAX as int)
}

/// The key that a text writes.
pub open spec fn key_in(s: Seq<char>) -> Option<DisplayKey> {
    let parts = text::pieces(s, ':');
    if parts.len() != 3 {
        None
    } else {
        match (number(parts[0]), number(parts[1]), number(parts[2])) {
            (Some(a), Some(b), Some(c)) => Some(
                DisplayKey { vendor: a as u32, model: b as u32, serial: c as u32 },
            ),
            _ => None,
        }
    }
}

/// The first of three parts that is no number.
pub open spec fn first_bad(parts: Seq<Seq<char>>) -> Seq<char> {
    if number(parts[0]) is None {
        parts[0]
    } else if number(parts[1]) is None {
        parts[1]
    } else {
        parts[2]
    }
}

impl DisplayKey {
    /// The key of a panel.
    pub fn new(vendor: u32, model: u32, serial: u32) -> (r: Self)
        ensures
            r == (DisplayKey { vendor, model, serial }),
    {
        DisplayKey { vendor, model, serial }
    }

    /// The serial in base sixteen.
    pub fn serial_hex(&self) -> (r: String)
        ensures
            r@ == hex_at_least(self.serial as nat, 8),
    {
        let n = hex_width(self.serial);
        text::hex_digits(
            self.serial,
            if n >= 8 {
                n
            } else {
                8
            },
        )
    }

    /// The product number in base sixteen.
    pub fn model_hex(&self) -> (r: String)
        ensures
            r@ == hex_at_least(self.model as nat, 4),
    {
        let n = hex_width(self.model);
        text::hex_digits(
            self.model,
            if n >= 4 {
                n
            } else {
                4
            },
        )
    }

    /// Panels that report no serial cannot be told apart from an identical sibling.
    pub fn is_ambiguous(&self) -> (r: bool)
        ensures
            r == (self.serial == 0),
    {
        self.serial == 0
    }

    /// The key as it is written.
    pub fn to_text(&self) -> (r: String)
        ensures
            r@ == written(*self),
    {
        let mut out = text::dec(self.vendor as u64);
        out.append(":");
        let model = text::dec(self.model as u64);
        out.append(model.as_str());
        out.append(":");
        let serial = text::dec(self.serial as u64);
        out.append(serial.as_str());
        out
    }

    /// Reads a key.
    pub fn from_str(s: &str) -> (r: Result<Self, KeyError>)
        ensures
            match r {
                Ok(k) => key_in(s@) == Some(k),
                Err(KeyError::Shape { got }) => text::pieces(s@, ':').len() != 3 && got@ == s@,
                Err(KeyError::NotANumber { part, got }) => {
                    let parts = text::pieces(s@, ':');
                    &&& parts.len() == 3
                    &&& key_in(s@) is None
                    &&& part@ == first_bad(parts)
                    &&& got@ == s@
                },
            },
    {
        let parts = text::split_on(s, ':');
        let ghost all = text::pieces(s@, ':');
        assert(parts@.len() == all.len());
        if parts.len() != 3 {
            return Err(KeyError::Shape { got: s.to_owned() });
        }
        assert(parts@[0]@ == all[0] && parts@[1]@ == all[1] && parts@[2]@ == all[2]);
        let a = match read_number(&parts[0]) {
            Some(n) => n,
            None => {
                return Err(KeyError::NotANumber { part: parts[0].clone(), got: s.to_owned() });
            },
        };
        let b = match read_number(&parts[1]) {
            Some(n) => n,
            None => {
                return Err(KeyError::NotANumber { part: parts[1].clone(), got: s.to_owned() });
            },
        };
        let c = match read_number(&parts[2]) {
            Some(n) => n,
            None => {
                return Err(KeyError::NotANumber { part: parts[2].clone(), got: s.to_owned() });
            },
        };
        Ok(DisplayKey::new(a, b, c))
    }
}

fn read_number(part: &str) -> (r: Option<u32>)
    ensures
        match r {
            Some(n) => number(part@) == Some(n as int),
            None => number(part@) is None,
        },
{
    let bare = text::trim(part);
    text::parse_u32(&bare)
}

impl KeyError {
    /// The reason as it is shown.
    pub fn message(&self) -> (r: String)
        ensures
            r@ == (match *self {
                KeyError::Shape { got } => "expected vendor:model:serial, got "@ + text::quoted(
                    got@,
                ),
                KeyError::NotANumber { part, got } => text::quoted(part@)
                    + " is not a number in "@ + text::quoted(got@),
            }),
    {
        match self {
            KeyError::Shape { got } => {
                let mut out: String = "expected vendor:model:serial, got ".to_owned();
                let q = text::quote(got);
                out.append(q.as_str());
                out
            },
            KeyError::NotANumber { part, got } => {
                let mut out = text::quote(part);
                out.append(" is not a number in ");
                let q = text::quote(got);
                out.append(q.as_str());
                out
            },
        }
    }
}

/// A run of characters without the separator is its own only piece.
proof fn lemma_single_piece(s: Seq<char>, sep: char)
    requires
        !s.contains(sep),
    ensures
        text::pieces(s, sep) == seq![s],
    decreases s.len(),
{
    if s.len() == 0 {
        assert(s =~= Seq::<char>::empty());
        assert(text::pieces(s, sep) =~= seq![s]);
    } else {
        let rest = s.drop_last();
        assert(s.contains(s[s.len() - 1]));
        assert forall|i: int| 0 <= i < rest.len() implies rest[i] != sep by {
            assert(s.contains(s[i]));
        }
        lemma_single_piece(rest, sep);
        assert(seq![rest].drop_last() =~= Seq::<Seq<char>>::empty());
        assert(rest.push(s.last()) =~= s);
        assert(text::pieces(s, sep) =~= seq![s]);
    }
}

/// A number as it is written reads back as the number.
proof fn lemma_number_reads_back(n: u32)
    ensures
        number(text::decimal(n as nat)) == Some(n as int),
        !text::decimal(n as nat).contains(':'),
{
    let d = text::decimal(n as nat);
    text::lemma_decimal_reads_back(n as nat);
    assert(text::is_digit(d[0]));
    assert(text::is_digit(d[d.len() - 1]));
    assert(text::trimmed_start(d) == d);
    assert(text::trimmed_end(d) == d);
    assert forall|i: int| 0 <= i < d.len() implies d[i] != ':' by {
        assert(text::is_digit(d[i]));
    }
}

/// A key that is written and read back is the same key.
pub proof fn law_a_written_key_reads_back(k: DisplayKey)
    ensures
        key_in(written(k)) == Some(k),
{
    let a = text::decimal(k.vendor as nat);
    let b = text::decimal(k.model as nat);
    let c = text::decimal(k.serial as nat);
    lemma_number_reads_back(k.vendor);
    lemma_number_reads_back(k.model);
    lemma_number_reads_back(k.serial);
    reveal_strlit(":");
    assert(":"@ =~= seq![':']);
    let tail = b.push(':') + c;
    assert(written(k) =~= a.push(':') + tail);
    paths::lemma_pieces_joined(a, tail, ':');
    paths::lemma_pieces_joined(b, c, ':');
    lemma_single_piece(a, ':');
    lemma_single_piece(b, ':');
    lemma_single_piece(c, ':');
    assert(text::pieces(written(k), ':') =~= seq![a, b, c]);
}

/// Two keys that are written alike are the same key.
pub proof fn law_no_two_keys_are_written_alike(a: DisplayKey, b: DisplayKey)
    requires
        written(a) == written(b),
    ensures
        a == b,
{
    law_a_written_key_reads_back(a);
    law_a_written_key_reads_back(b);
}

/// What a text of base-sixteen digits stands for.
pub open spec fn hex_value(s: Seq<char>) -> int
    decreases s.len(),
{
    if s.len() == 0 {
        0
    } else {
        let c = s.last();
        hex_value(s.drop_last()) * 16 + if '0' <= c <= '9' {
            c as int - '0' as int
        } else {
            10 + (c as int - 'a' as int)
        }
    }
}

proof fn lemma_hex_value(n: nat, width: nat)
    requires
        n == 0 || hex_len(n) <= width,
    ensures
        hex_value(text::hex(n, width)) == n,
        text::hex(n, width).len() == width,
    decreases width,
{
    if width > 0 {
        lemma_hex_value(n / 16, (width - 1) as nat);
        let s = text::hex(n, width);
        let front = text::hex(n / 16, (width - 1) as nat);
        assert(s.drop_last() =~= front);
        assert(s.last() == text::digit((n % 16) as int));
    }
}

/// A number in base sixteen has at least as many digits as are asked for, and reads back as
/// itself.
pub proof fn law_a_number_in_base_sixteen_reads_back(n: nat, width: nat)
    ensures
        hex_value(hex_at_least(n, width)) == n,
        hex_at_least(n, width).len() >= width,
        hex_len(n) <= width ==> hex_at_least(n, width).len() == width,
{
    let w = if hex_len(n) >= width {
        hex_len(n)
    } else {
        width
    };
    lemma_hex_value(n, w);
}

/// A key is three numbers with a colon between any two, blanks around them aside; a text of
/// fewer parts or more is none.
pub proof fn law_a_key_is_three_numbers(
    x: Seq<char>,
    y: Seq<char>,
    z: Seq<char>,
    vendor: u32,
    model: u32,
    serial: u32,
)
    requires
        !x.contains(':'),
        !y.contains(':'),
        !z.contains(':'),
    ensures
        text::trimmed(x) == text::decimal(vendor as nat) && text::trimmed(y) == text::decimal(
            model as nat,
        ) && text::trimmed(z) == text::decimal(serial as nat) ==> key_in(
            x.push(':') + (y.push(':') + z),
        ) == Some(DisplayKey { vendor, model, serial }),
        key_in(x) is None,
        key_in(x.push(':') + y) is None,
{
    text::lemma_one_line(x, ':');
    text::lemma_one_line(y, ':');
    text::lemma_one_line(z, ':');
    paths::lemma_pieces_joined(y, z, ':');
    paths::lemma_pieces_joined(x, y.push(':') + z, ':');
    paths::lemma_pieces_joined(x, y, ':');
    assert(text::pieces(x.push(':') + (y.push(':') + z), ':') =~= seq![x, y, z]);
    text::law_a_written_number_reads_back(vendor as nat, u32::MAX as int);
    text::law_a_written_number_reads_back(model as nat, u32::MAX as int);
    text::law_a_written_number_reads_back(serial as nat, u32::MAX as int);
}

} // verus!
