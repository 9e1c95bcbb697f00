use vstd::prelude::*;
use crate::text::{append_decimal, append_padded, decimal, digit_char, padded, strip_zeros};

verus! {

/// Key of the print-time header line.
pub const ANKERMAKE_PRINTING_TIME: &'static str = "TIME";

/// Key of the filament-length header line.
pub const ANKERMAKE_FILAMENT_USED_M: &'static str = "Filament used";

/// Key of the flavour header line.
pub const ANKERMAKE_FLAVOUR: &'static str = "FLAVOR";

/// A length of `u` hundredths of a millimetre written in metres: the exact
/// decimal value, without trailing fractional zeros and without a point when
/// it is whole.
pub open spec fn meters_text(u: nat) -> Seq<char> {
    if u % 100000 == 0 {
        decimal(u / 100000)
    } else {
        decimal(u / 100000) + seq!['.'] + strip_zeros(padded(u % 100000, 5))
    }
}

/// `;key:value`
pub open spec fn pair_line(key: Seq<char>, value: Seq<char>) -> Seq<char> {
    seq![';'] + key + seq![':'] + value
}

/// `;key:seconds`
pub open spec fn seconds_line(key: Seq<char>, s: nat) -> Seq<char> {
    pair_line(key, decimal(s))
}

/// `;key: metresm`
pub open spec fn length_line(key: Seq<char>, u: nat) -> Seq<char> {
    pair_line(key, seq![' '] + meters_text(u) + seq!['m'])
}

/// A value taken from the source text, ready to be written as a header line.
pub enum InterestingFields {
    /// Time taken to print, in seconds.
    Time(u64),
    /// Length of filament used, in hundredths of a millimetre.
    FilamentUsed(u64),
    /// The program flavour.
    Flavour(String),
}

impl InterestingFields {
    /// The header line of this value.
    pub open spec fn line(&self) -> Seq<char> {
        match self {
            InterestingFields::Time(s) => seconds_line(ANKERMAKE_PRINTING_TIME@, *s as nat),
            InterestingFields::FilamentUsed(u) => length_line(ANKERMAKE_FILAMENT_USED_M@, *u as nat),
            InterestingFields::Flavour(f) => pair_line(ANKERMAKE_FLAVOUR@, f@),
        }
    }

    /// Renders this value as its header line.
    pub fn to_string(&self) -> (r: String)
        ensures
            r@ == self.line(),
    {
        let mut out = String::new();
        match self {
            InterestingFields::Time(s) => append_seconds_line(&mut out, ANKERMAKE_PRINTING_TIME, *s),
            InterestingFields::FilamentUsed(u) => append_length_line(&mut out, ANKERMAKE_FILAMENT_USED_M, *u),
            InterestingFields::Flavour(f) => append_pair_line(&mut out, ANKERMAKE_FLAVOUR, f.as_str()),
        }
        out
    }
}

/// Appends `;key:value`.
pub fn append_pair_line(out: &mut String, key: &str, value: &str)
    ensures
        final(out)@ == old(out)@ + pair_line(key@, value@),
{
    proof {
        reveal_strlit(";");
        reveal_strlit(":");
    }
    out.append(";");
    out.append(key);
    out.append(":");
    out.append(value);
    assert(final(out)@ =~= old(out)@ + pair_line(key@, value@));
}

/// Appends `;key:seconds`.
pub fn append_seconds_line(out: &mut String, key: &str, s: u64)
    ensures
        final(out)@ == old(out)@ + seconds_line(key@, s as nat),
{
    append_pair_line(out, key, "");
    proof {
        reveal_strlit("");
    }
    append_decimal(out, s);
    assert(final(out)@ =~= old(out)@ + seconds_line(key@, s as nat));
}

/// Appends the metre text of `u` hundredths of a millimetre.
pub fn append_meters(out: &mut String, u: u64)
    ensures
        final(out)@ == old(out)@ + meters_text(u as nat),
{
    append_decimal(out, u / 100000);
    let mut r = u % 100000;
    if r != 0 {
        proof {
            reveal_strlit(".");
        }
        out.append(".");
        let mut k: u64 = 5;
        while k > 0 && r % 10 == 0
            invariant
                k <= 5,
                strip_zeros(padded(r as nat, k as nat)) == strip_zeros(padded((u % 100000) as nat, 5)),
            decreases k,
        {
            assert(padded(r as nat, k as nat).drop_last() == padded((r / 10) as nat, (k - 1) as nat));
            assert(digit_char((r % 10) as nat) == '0');
            r = r / 10;
            k = k - 1;
        }
        append_padded(out, r, k);
        proof {
            if k > 0 {
                assert(padded(r as nat, k as nat).last() == digit_char((r % 10) as nat));
            }
        }
        assert(final(out)@ =~= old(out)@ + meters_text(u as nat));
    }
}

/// Appends `;key: metresm`.
pub fn append_length_line(out: &mut String, key: &str, u: u64)
    ensures
        final(out)@ == old(out)@ + length_line(key@, u as nat),
{
    append_pair_line(out, key, " ");
    append_meters(out, u);
    out.append("m");
    proof {
        reveal_strlit(" ");
        reveal_strlit("m");
    }
    assert(final(out)@ =~= old(out)@ + length_line(key@, u as nat));
}

} // verus!
