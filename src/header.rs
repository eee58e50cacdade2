use vstd::prelude::*;

use crate::models::DownloadDrop;

verus! {

/// Why a response's list of range lengths does not fit the requested drops.
#[derive(PartialEq, Eq, Structural, Debug, Clone, Copy)]
pub enum LengthsError {
    /// The field at `position` is not a decimal number that fits in `usize`.
    Malformed { position: usize },
    /// The list holds `count` fields, more than there are drops.
    TooMany { count: usize },
    /// The list holds `count` fields, fewer than there are drops.
    TooFew { count: usize },
    /// The field at `position` announces `got` bytes where the drop has `expected`.
    Mismatch { position: usize, expected: usize, got: usize },
}

/// The fields of `s` between commas, in order; there is always at least one.
pub open spec fn split_commas(s: Seq<u8>) -> Seq<Seq<u8>>
    decreases s.len(),
{
    if s.len() == 0 {
        seq![Seq::empty()]
    } else {
        let rest = split_commas(s.drop_last());
        if s.last() == 44u8 {
            rest.push(Seq::empty())
        } else {
            rest.update(rest.len() - 1, rest.last().push(s.last()))
        }
    }
}

pub open spec fn is_digit(c: u8) -> bool {
    48u8 <= c <= 57u8
}

/// The number a field spells in decimal digits, or `None` where it is empty
/// or holds anything but digits.
pub open spec fn field_value(f: Seq<u8>) -> Option<nat>
    decreases f.len(),
{
    if f.len() == 0 || !is_digit(f.last()) {
        None
    } else if f.len() == 1 {
        Some((f.last() - 48) as nat)
    } else {
        match field_value(f.drop_last()) {
            Some(v) => Some(v * 10 + (f.last() - 48) as nat),
            None => None,
        }
    }
}

/// A field read as a length: its value where it has one that fits in `usize`.
pub open spec fn field_length(f: Seq<u8>) -> Option<usize> {
    match field_value(f) {
        Some(v) => if v <= usize::MAX {
            Some(v as usize)
        } else {
            None
        },
        None => None,
    }
}

/// Each comma-separated field of `s`, read as a length.
pub open spec fn header_lengths(s: Seq<u8>) -> Seq<Option<usize>> {
    let fields = split_commas(s);
    Seq::new(fields.len(), |j: int| field_length(fields[j]))
}

/// The verdict on fields `i..` against the drops' lengths: the first field
/// that is malformed or differs from its drop's length, else a count that
/// differs, else success.
pub open spec fn lengths_verdict(fields: Seq<Option<usize>>, lengths: Seq<usize>, i: int) -> Result<(), LengthsError>
    decreases fields.len() - i,
{
    if i < 0 || i >= fields.len() {
        if fields.len() < lengths.len() {
            Err(LengthsError::TooFew { count: fields.len() as usize })
        } else {
            Ok(())
        }
    } else if i >= lengths.len() {
        Err(LengthsError::TooMany { count: fields.len() as usize })
    } else {
        match fields[i] {
            None => Err(LengthsError::Malformed { position: i as usize }),
            Some(v) => if v != lengths[i] {
                Err(LengthsError::Mismatch { position: i as usize, expected: lengths[i], got: v })
            } else {
                lengths_verdict(fields, lengths, i + 1)
            },
        }
    }
}

pub open spec fn drop_lengths(drops: Seq<DownloadDrop>) -> Seq<usize> {
    Seq::new(drops.len(), |i: int| drops[i].length)
}

/// What has been read of the current field.
enum FieldState {
    Empty,
    Digits(usize),
    TooBig,
    Bad,
}

spec fn field_state_ok(st: FieldState, f: Seq<u8>) -> bool {
    match st {
        FieldState::Empty => f.len() == 0,
        FieldState::Digits(v) => field_value(f) == Some(v as nat),
        FieldState::TooBig => exists|n: nat| n > usize::MAX && field_value(f) == Some(n),
        FieldState::Bad => f.len() > 0 && field_value(f) is None,
    }
}

proof fn lemma_split_nonempty(s: Seq<u8>)
    ensures
        split_commas(s).len() >= 1,
    decreases s.len(),
{
    if s.len() > 0 {
        lemma_split_nonempty(s.drop_last());
    }
}

fn field_result(st: &FieldState, Ghost(f): Ghost<Seq<u8>>) -> (r: Option<usize>)
    requires
        field_state_ok(*st, f),
    ensures
        r == field_length(f),
{
    match st {
        FieldState::Digits(v) => Some(*v),
        _ => None,
    }
}

fn next_state(st: FieldState, c: u8, Ghost(f): Ghost<Seq<u8>>) -> (r: FieldState)
    requires
        field_state_ok(st, f),
    ensures
        field_state_ok(r, f.push(c)),
{
    let ghost g = f.push(c);
    assert(g.drop_last() =~= f);
    if c < 48 || c > 57 {
        return FieldState::Bad;
    }
    let d: usize = (c - 48) as usize;
    match st {
        FieldState::Empty => FieldState::Digits(d),
        FieldState::Digits(v) => {
            match v.checked_mul(10) {
                Some(m) => match m.checked_add(d) {
                    Some(n) => FieldState::Digits(n),
                    None => FieldState::TooBig,
                },
                None => {
                    assert(v as nat * 10 + d as nat > usize::MAX);
                    FieldState::TooBig
                },
            }
        },
        FieldState::TooBig => {
            let ghost n = choose|n: nat| n > usize::MAX && field_value(f) == Some(n);
            assert(n * 10 + d as nat > usize::MAX) by (nonlinear_arith)
                requires
                    n > usize::MAX,
            ;
            FieldState::TooBig
        },
        FieldState::Bad => FieldState::Bad,
    }
}

/// Reads a comma-separated list of decimal lengths: one entry per field,
/// `None` for a field that is not a number that fits in `usize`.
pub fn parse_lengths(header: &[u8]) -> (r: Vec<Option<usize>>)
    ensures
        r@ == header_lengths(header@),
{
    let mut out: Vec<Option<usize>> = Vec::new();
    let mut st = FieldState::Empty;
    let mut i: usize = 0;
    assert(header@.take(0) =~= Seq::<u8>::empty());
    while i < header.len()
        invariant
            i <= header@.len(),
            split_commas(header@.take(i as int)).len() == out@.len() + 1,
            forall|j: int| 0 <= j < out@.len() ==> #[trigger] out@[j] == field_length(split_commas(header@.take(i as int))[j]),
            field_state_ok(st, split_commas(header@.take(i as int)).last()),
        decreases header@.len() - i,
    {
        let c = header[i];
        let ghost fs = split_commas(header@.take(i as int));
        assert(header@.take(i + 1).drop_last() =~= header@.take(i as int));
        proof { lemma_split_nonempty(header@.take(i as int)); }
        if c == 44 {
            let v = field_result(&st, Ghost(fs.last()));
            out.push(v);
            st = FieldState::Empty;
        } else {
            st = next_state(st, c, Ghost(fs.last()));
        }
        i = i + 1;
    }
    assert(header@.take(i as int) =~= header@);
    let ghost fs = split_commas(header@);
    let v = field_result(&st, Ghost(fs.last()));
    out.push(v);
    assert(out@ =~= header_lengths(header@));
    out
}

/// Checks parsed lengths against the drops they should announce, in order.
pub fn check_lengths(fields: &Vec<Option<usize>>, drops: &[DownloadDrop]) -> (r: Result<(), LengthsError>)
    ensures
        r == lengths_verdict(fields@, drop_lengths(drops@), 0),
{
    let ghost lengths = drop_lengths(drops@);
    let mut i: usize = 0;
    while i < fields.len()
        invariant
            i <= fields@.len(),
            lengths == drop_lengths(drops@),
            lengths_verdict(fields@, lengths, 0) == lengths_verdict(fields@, lengths, i as int),
        decreases fields@.len() - i,
    {
        if i >= drops.len() {
            return Err(LengthsError::TooMany { count: fields.len() });
        }
        match fields[i] {
            None => {
                return Err(LengthsError::Malformed { position: i });
            },
            Some(v) => {
                if v != drops[i].length {
                    return Err(LengthsError::Mismatch { position: i, expected: drops[i].length, got: v });
                }
            },
        }
        i = i + 1;
    }
    if fields.len() < drops.len() {
        Err(LengthsError::TooFew { count: fields.len() })
    } else {
        Ok(())
    }
}

/// Checks a response's comma-separated list of range lengths against the
/// drops requested: one field per drop, in order, each a decimal number
/// equal to its drop's length.
pub fn check_content_lengths(header: &[u8], drops: &[DownloadDrop]) -> (r: Result<(), LengthsError>)
    ensures
        r == lengths_verdict(header_lengths(header@), drop_lengths(drops@), 0),
{
    let fields = parse_lengths(header);
    check_lengths(&fields, drops)
}

} // verus!
