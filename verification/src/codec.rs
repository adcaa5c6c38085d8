//! The ballot wire-format codec.
//!
//! A ballot travels as the UTF-8 text `[(name, low, high), ...]`; the empty
//! ballot is `[]`. `serialize_ballot` emits that text; `parse_ballot` is a
//! strict character-level recognizer for it that rejects unknown alternative
//! names and ranks with `low > high`, all-or-nothing.

use vstd::prelude::*;

use crate::ballot::{
    Ballot, EntryV, Rank, lemma_find_name_absent, lemma_insert_wf, names_unique,
    ranks_wf, spec_insert,
};

verus! {

/// Why a ballot text was rejected.
#[derive(Clone, Copy, Debug, PartialEq, Eq, Structural)]
pub enum ParseError {
    /// Malformed wire text: a character that does not fit the grammar.
    ProtocolSyntax,
    /// An entry names an alternative outside the known set.
    UnknownAlternative,
    /// An entry's rank has `low > high`.
    InvalidRank,
}

/// The decimal digit character for `d`.
pub open spec fn digit_char(d: u64) -> char {
    ((48 + d) as u8) as char
}

/// The decimal text of `n`: most significant digit first, no leading zero
/// (a single `0` for zero).
pub open spec fn spec_dec(n: u64) -> Seq<char>
    decreases n,
{
    if n < 10 {
        seq![digit_char(n)]
    } else {
        spec_dec((n / 10) as u64) + seq![digit_char((n % 10) as u64)]
    }
}

/// Relies on String::push: appends exactly the given character.
#[verifier::external_body]
pub(crate) fn push_char(s: &mut String, c: char)
    ensures
        final(s)@ == old(s)@.push(c),
{
    s.push(c);
}

/// Writes the decimal text of `n` onto the end of `out`.
pub fn push_decimal(out: &mut String, n: u64)
    ensures
        final(out)@ == old(out)@ + spec_dec(n),
    decreases n,
{
    if n < 10 {
        push_char(out, (48 + n as u8) as char);
        proof {
            assert(final(out)@ =~= old(out)@ + spec_dec(n));
        }
    } else {
        push_decimal(out, n / 10);
        push_char(out, (48 + (n % 10) as u8) as char);
        proof {
            assert(final(out)@ =~= old(out)@ + spec_dec(n));
        }
    }
}

/// The wire text of one entry: `(name, low, high)`.
pub open spec fn entry_text(e: EntryV) -> Seq<char> {
    seq!['('] + e.0 + seq![',', ' '] + spec_dec(e.1.0) + seq![',', ' '] + spec_dec(e.1.1) + seq![
        ')',
    ]
}

/// The wire text of a sequence of entries, separated by `, `.
pub open spec fn entries_text(s: Seq<EntryV>) -> Seq<char>
    decreases s.len(),
{
    if s.len() == 0 {
        Seq::empty()
    } else if s.len() == 1 {
        entry_text(s[0])
    } else {
        entries_text(s.drop_last()) + seq![',', ' '] + entry_text(s.last())
    }
}

/// The wire text of a whole ballot.
pub open spec fn spec_serialize(s: Seq<EntryV>) -> Seq<char> {
    seq!['['] + entries_text(s) + seq![']']
}

/// A state of the recognizer: between entries, or inside one with the
/// parts read so far.
pub enum ScanState {
    /// Before the opening `[`.
    Begin,
    /// After `[` or an entry separator `,`: a `(` or the closing `]` follows.
    OpenEntry,
    /// Inside an entry's name, holding the characters read so far.
    Name(Seq<char>),
    /// Reading the low bound of an entry's rank.
    Low(Seq<char>, u64),
    /// Reading the high bound of an entry's rank.
    High(Seq<char>, u64, u64),
    /// After an entry's `)`: a `,` or the closing `]` follows.
    CloseEntry,
    /// After the closing `]`: only whitespace may follow.
    Done,
}

/// Whitespace, ignored everywhere in the wire format.
pub open spec fn is_space(c: char) -> bool {
    c == ' ' || c == '\t' || c == '\r' || c == '\n'
}

/// A decimal digit.
pub open spec fn is_digit(c: char) -> bool {
    48 <= c as u32 <= 57
}

/// The value of a digit character.
pub open spec fn digit_val(c: char) -> u64 {
    (c as u32 - 48) as u64
}

/// A character allowed in an alternative name: an ASCII letter or digit.
pub open spec fn is_name_char(c: char) -> bool {
    let u = c as u32;
    (97 <= u <= 122) || (65 <= u <= 90) || (48 <= u <= 57)
}

/// What one non-whitespace character does to the recognizer: the next
/// state and possibly a finished entry, or the error that rejects the text.
pub open spec fn scan_step(st: ScanState, c: char, known: Seq<Seq<char>>) -> Result<
    (ScanState, Option<EntryV>),
    ParseError,
> {
    match st {
        ScanState::Begin => {
            if c == '[' {
                Ok((ScanState::OpenEntry, None))
            } else {
                Err(ParseError::ProtocolSyntax)
            }
        },
        ScanState::OpenEntry => {
            if c == ']' {
                Ok((ScanState::Done, None))
            } else if c == '(' {
                Ok((ScanState::Name(Seq::empty()), None))
            } else {
                Err(ParseError::ProtocolSyntax)
            }
        },
        ScanState::Name(name) => {
            if c == ',' {
                if name.len() == 0 {
                    Err(ParseError::ProtocolSyntax)
                } else if known.contains(name) {
                    Ok((ScanState::Low(name, 0), None))
                } else {
                    Err(ParseError::UnknownAlternative)
                }
            } else if is_name_char(c) {
                Ok((ScanState::Name(name.push(c)), None))
            } else {
                Err(ParseError::ProtocolSyntax)
            }
        },
        ScanState::Low(name, n) => {
            if c == ',' {
                Ok((ScanState::High(name, n, 0), None))
            } else if is_digit(c) {
                if 10 * (n as int) + digit_val(c) as int <= u64::MAX as int {
                    Ok((ScanState::Low(name, (10 * n + digit_val(c)) as u64), None))
                } else {
                    Err(ParseError::ProtocolSyntax)
                }
            } else {
                Err(ParseError::ProtocolSyntax)
            }
        },
        ScanState::High(name, lo, n) => {
            if c == ')' {
                if lo <= n {
                    Ok((ScanState::CloseEntry, Some((name, (lo, n)))))
                } else {
                    Err(ParseError::InvalidRank)
                }
            } else if is_digit(c) {
                if 10 * (n as int) + digit_val(c) as int <= u64::MAX as int {
                    Ok((ScanState::High(name, lo, (10 * n + digit_val(c)) as u64), None))
                } else {
                    Err(ParseError::ProtocolSyntax)
                }
            } else {
                Err(ParseError::ProtocolSyntax)
            }
        },
        ScanState::CloseEntry => {
            if c == ']' {
                Ok((ScanState::Done, None))
            } else if c == ',' {
                Ok((ScanState::OpenEntry, None))
            } else {
                Err(ParseError::ProtocolSyntax)
            }
        },
        ScanState::Done => Err(ParseError::ProtocolSyntax),
    }
}

/// Runs the recognizer over `s` from state `st` with the entries `acc`
/// already collected; whitespace is skipped. Returns the final state and
/// entries, or the first error.
#[verifier::opaque]
pub open spec fn scan(st: ScanState, s: Seq<char>, acc: Seq<EntryV>, known: Seq<Seq<char>>) -> Result<
    (ScanState, Seq<EntryV>),
    ParseError,
>
    decreases s.len(),
{
    if s.len() == 0 {
        Ok((st, acc))
    } else if is_space(s[0]) {
        scan(st, s.drop_first(), acc, known)
    } else {
        match scan_step(st, s[0], known) {
            Ok((st2, e)) => {
                let acc2 = match e {
                    Some(e) => spec_insert(acc, e.0, e.1),
                    None => acc,
                };
                scan(st2, s.drop_first(), acc2, known)
            },
            Err(er) => Err(er),
        }
    }
}

/// The names of the known alternatives, as specifications see them.
pub open spec fn names_view(v: Seq<String>) -> Seq<Seq<char>> {
    v.map_values(|s: String| s@)
}

/// What parsing `s` against the known names returns: the entries of the
/// ballot, or the error. The text must be fully consumed and end in the
/// `Done` state.
pub open spec fn spec_parse(s: Seq<char>, known: Seq<Seq<char>>) -> Result<Seq<EntryV>, ParseError> {
    match scan(ScanState::Begin, s, Seq::empty(), known) {
        Ok((st, acc)) => {
            if st is Done {
                Ok(acc)
            } else {
                Err(ParseError::ProtocolSyntax)
            }
        },
        Err(e) => Err(e),
    }
}

/// Running the recognizer over `a + b` is running it over `a`, then over
/// `b` from where `a` left off.
pub proof fn lemma_scan_append(
    st: ScanState,
    a: Seq<char>,
    b: Seq<char>,
    acc: Seq<EntryV>,
    known: Seq<Seq<char>>,
)
    ensures
        scan(st, a + b, acc, known) == (match scan(st, a, acc, known) {
            Ok((st2, acc2)) => scan(st2, b, acc2, known),
            Err(er) => Err(er),
        }),
    decreases a.len(),
{
    reveal_with_fuel(scan, 2);
    if a.len() == 0 {
        assert(a + b =~= b);
    } else {
        assert((a + b)[0] == a[0]);
        assert((a + b).drop_first() =~= a.drop_first() + b);
        if is_space(a[0]) {
            lemma_scan_append(st, a.drop_first(), b, acc, known);
        } else {
            match scan_step(st, a[0], known) {
                Ok((st2, e)) => {
                    let acc2 = match e {
                        Some(e) => spec_insert(acc, e.0, e.1),
                        None => acc,
                    };
                    lemma_scan_append(st2, a.drop_first(), b, acc2, known);
                },
                Err(er) => {},
            }
        }
    }
}

/// Extending a text by one character runs one more step of the recognizer.
proof fn lemma_scan_snoc(
    st: ScanState,
    s: Seq<char>,
    i: int,
    acc: Seq<EntryV>,
    known: Seq<Seq<char>>,
)
    requires
        0 <= i < s.len(),
        scan(ScanState::Begin, s.take(i), Seq::empty(), known) == Ok::<_, ParseError>((st, acc)),
    ensures
        scan(ScanState::Begin, s.take(i + 1), Seq::empty(), known) == (if is_space(s[i]) {
            Ok::<(ScanState, Seq<EntryV>), ParseError>((st, acc))
        } else {
            match scan_step(st, s[i], known) {
                Ok((st2, e)) => Ok(
                    (st2, match e {
                        Some(e) => spec_insert(acc, e.0, e.1),
                        None => acc,
                    }),
                ),
                Err(er) => Err(er),
            }
        }),
{
    reveal_with_fuel(scan, 2);
    let c = s[i];
    let one = seq![c];
    assert(s.take(i + 1) =~= s.take(i) + one);
    lemma_scan_append(ScanState::Begin, s.take(i), one, Seq::empty(), known);
    assert(one.drop_first() =~= Seq::<char>::empty());
    if is_space(c) {
        assert(scan(st, one, acc, known) == scan(st, one.drop_first(), acc, known));
        assert(scan(st, one.drop_first(), acc, known) == Ok::<_, ParseError>((st, acc)));
    } else {
        match scan_step(st, c, known) {
            Ok((st2, e)) => {
                let acc2 = match e {
                    Some(e) => spec_insert(acc, e.0, e.1),
                    None => acc,
                };
                assert(scan(st, one, acc, known) == scan(st2, one.drop_first(), acc2, known));
                assert(scan(st2, one.drop_first(), acc2, known) == Ok::<_, ParseError>(
                    (st2, acc2),
                ));
            },
            Err(er) => {
                assert(scan(st, one, acc, known) == Err::<(ScanState, Seq<EntryV>), _>(er));
            },
        }
    }
}

/// A text whose prefix the recognizer rejects is rejected whole, with the
/// same error.
proof fn lemma_scan_error_prefix(s: Seq<char>, i: int, known: Seq<Seq<char>>, er: ParseError)
    requires
        0 <= i <= s.len(),
        scan(ScanState::Begin, s.take(i), Seq::empty(), known) == Err::<(ScanState, Seq<EntryV>),
            _,
        >(er),
    ensures
        spec_parse(s, known) == Err::<Seq<EntryV>, ParseError>(er),
{
    assert(s =~= s.take(i) + s.skip(i));
    lemma_scan_append(ScanState::Begin, s.take(i), s.skip(i), Seq::empty(), known);
}

/// One non-whitespace character advances the recognizer by one step;
/// whitespace leaves it alone.
proof fn lemma_scan_single(st: ScanState, c: char, acc: Seq<EntryV>, known: Seq<Seq<char>>)
    ensures
        scan(st, seq![c], acc, known) == (if is_space(c) {
            Ok::<(ScanState, Seq<EntryV>), ParseError>((st, acc))
        } else {
            match scan_step(st, c, known) {
                Ok((st2, e)) => Ok(
                    (st2, match e {
                        Some(e) => spec_insert(acc, e.0, e.1),
                        None => acc,
                    }),
                ),
                Err(er) => Err(er),
            }
        }),
{
    reveal_with_fuel(scan, 2);
    let one = seq![c];
    assert(one.drop_first() =~= Seq::<char>::empty());
}

/// A name: non-empty, ASCII letters and digits only.
pub open spec fn valid_name(nm: Seq<char>) -> bool {
    nm.len() > 0 && forall|k: int| 0 <= k < nm.len() ==> is_name_char(#[trigger] nm[k])
}

/// An entry fit for serialization: a valid, known name and a valid rank.
pub open spec fn entry_valid(e: EntryV, known: Seq<Seq<char>>) -> bool {
    valid_name(e.0) && known.contains(e.0) && e.1.0 <= e.1.1
}

/// A ballot fit for serialization: well-formed, every entry valid over the
/// known names.
pub open spec fn serializable(b: Seq<EntryV>, known: Seq<Seq<char>>) -> bool {
    names_unique(b) && forall|k: int| 0 <= k < b.len() ==> entry_valid(#[trigger] b[k], known)
}

/// Reading name characters only grows the name under scan.
proof fn lemma_scan_name_chars(p: Seq<char>, nm: Seq<char>, acc: Seq<EntryV>, known: Seq<Seq<char>>)
    requires
        forall|k: int| 0 <= k < nm.len() ==> is_name_char(#[trigger] nm[k]),
    ensures
        scan(ScanState::Name(p), nm, acc, known) == Ok::<_, ParseError>(
            (ScanState::Name(p + nm), acc),
        ),
    decreases nm.len(),
{
    reveal_with_fuel(scan, 1);
    if nm.len() == 0 {
        assert(p + nm =~= p);
    } else {
        let c = nm[0];
        assert(is_name_char(c));
        assert(!is_space(c));
        assert(scan_step(ScanState::Name(p), c, known) == Ok::<_, ParseError>(
            (ScanState::Name(p.push(c)), None::<EntryV>),
        ));
        lemma_scan_name_chars(p.push(c), nm.drop_first(), acc, known);
        assert(p.push(c) + nm.drop_first() =~= p + nm);
    }
}

/// The value that a run of digit characters accumulates, starting from `v`.
spec fn acc_val(v: int, ds: Seq<char>) -> int
    decreases ds.len(),
{
    if ds.len() == 0 {
        v
    } else {
        acc_val(10 * v + digit_val(ds[0]) as int, ds.drop_first())
    }
}

/// No intermediate value of the accumulation overflows 64 bits.
spec fn digits_fit(v: int, ds: Seq<char>) -> bool
    decreases ds.len(),
{
    ds.len() == 0 || (10 * v + digit_val(ds[0]) as int <= u64::MAX as int && digits_fit(
        10 * v + digit_val(ds[0]) as int,
        ds.drop_first(),
    ))
}

/// All characters are decimal digits.
spec fn all_digits(ds: Seq<char>) -> bool {
    forall|k: int| 0 <= k < ds.len() ==> is_digit(#[trigger] ds[k])
}

/// Reading digits in the low-bound state accumulates their value.
proof fn lemma_scan_digits_low(
    name: Seq<char>,
    v: u64,
    ds: Seq<char>,
    acc: Seq<EntryV>,
    known: Seq<Seq<char>>,
)
    requires
        all_digits(ds),
        digits_fit(v as int, ds),
    ensures
        scan(ScanState::Low(name, v), ds, acc, known) == Ok::<_, ParseError>(
            (ScanState::Low(name, acc_val(v as int, ds) as u64), acc),
        ),
    decreases ds.len(),
{
    reveal_with_fuel(scan, 1);
    if ds.len() > 0 {
        let c = ds[0];
        assert(is_digit(c));
        assert(!is_space(c) && c != ',');
        let v2 = (10 * v + digit_val(c)) as u64;
        assert(scan_step(ScanState::Low(name, v), c, known) == Ok::<_, ParseError>(
            (ScanState::Low(name, v2), None::<EntryV>),
        ));
        lemma_scan_digits_low(name, v2, ds.drop_first(), acc, known);
    }
}

/// Reading digits in the high-bound state accumulates their value.
proof fn lemma_scan_digits_high(
    name: Seq<char>,
    lo: u64,
    v: u64,
    ds: Seq<char>,
    acc: Seq<EntryV>,
    known: Seq<Seq<char>>,
)
    requires
        all_digits(ds),
        digits_fit(v as int, ds),
    ensures
        scan(ScanState::High(name, lo, v), ds, acc, known) == Ok::<_, ParseError>(
            (ScanState::High(name, lo, acc_val(v as int, ds) as u64), acc),
        ),
    decreases ds.len(),
{
    reveal_with_fuel(scan, 1);
    if ds.len() > 0 {
        let c = ds[0];
        assert(is_digit(c));
        assert(!is_space(c) && c != ')');
        let v2 = (10 * v + digit_val(c)) as u64;
        assert(scan_step(ScanState::High(name, lo, v), c, known) == Ok::<_, ParseError>(
            (ScanState::High(name, lo, v2), None::<EntryV>),
        ));
        lemma_scan_digits_high(name, lo, v2, ds.drop_first(), acc, known);
    }
}

/// Accumulation splits over concatenation.
proof fn lemma_acc_val_append(v: int, a: Seq<char>, b: Seq<char>)
    ensures
        acc_val(v, a + b) == acc_val(acc_val(v, a), b),
        digits_fit(v, a + b) == (digits_fit(v, a) && digits_fit(acc_val(v, a), b)),
    decreases a.len(),
{
    reveal_with_fuel(acc_val, 2);
    reveal_with_fuel(digits_fit, 2);
    if a.len() == 0 {
        assert(a + b =~= b);
    } else {
        assert((a + b)[0] == a[0]);
        assert((a + b).drop_first() =~= a.drop_first() + b);
        lemma_acc_val_append(10 * v + digit_val(a[0]) as int, a.drop_first(), b);
    }
}

/// The decimal text of `n` is all digits, never overflows while read back,
/// and reads back to `n`.
proof fn lemma_dec_reads_back(n: u64)
    ensures
        all_digits(spec_dec(n)),
        digits_fit(0, spec_dec(n)),
        acc_val(0, spec_dec(n)) == n as int,
    decreases n,
{
    reveal_with_fuel(acc_val, 3);
    reveal_with_fuel(digits_fit, 3);
    if n < 10 {
        let d = digit_char(n);
        assert(d as u32 == 48 + n);
        assert(is_digit(d));
        assert(digit_val(d) == n);
        assert(spec_dec(n) =~= seq![d]);
        assert(seq![d].drop_first() =~= Seq::<char>::empty());
        assert(acc_val(0, seq![d]) == n as int);
    } else {
        lemma_dec_reads_back(n / 10);
        let dm = digit_char((n % 10) as u64);
        assert(dm as u32 == 48 + n % 10);
        assert(is_digit(dm) && digit_val(dm) == n % 10);
        let a = spec_dec((n / 10) as u64);
        let b = seq![dm];
        assert(spec_dec(n) == a + b);
        assert(all_digits(a + b)) by {
            assert(forall|k: int|
                0 <= k < (a + b).len() ==> (a + b)[k] == (if k < a.len() {
                    a[k]
                } else {
                    b[k - a.len()]
                }));
        }
        lemma_acc_val_append(0, a, b);
        assert(b.drop_first() =~= Seq::<char>::empty());
        assert(b[0] == dm);
        assert(acc_val(n as int / 10, b) == acc_val(
            10 * (n as int / 10) + digit_val(dm) as int,
            b.drop_first(),
        ));
        assert(acc_val(n as int / 10, b) == 10 * (n as int / 10) + (n % 10) as int);
        assert(10 * (n as int / 10) + (n % 10) as int == n as int);
        assert(digits_fit(n as int / 10, b));
    }
}

/// Scanning the text of one valid entry from the open-entry state collects
/// exactly that entry.
proof fn lemma_scan_entry(e: EntryV, acc: Seq<EntryV>, known: Seq<Seq<char>>)
    requires
        entry_valid(e, known),
    ensures
        scan(ScanState::OpenEntry, entry_text(e), acc, known) == Ok::<_, ParseError>(
            (ScanState::CloseEntry, spec_insert(acc, e.0, e.1)),
        ),
{
    let t_open = seq!['('];
    let t_sep = seq![',', ' '];
    let t_close = seq![')'];
    let d_lo = spec_dec(e.1.0);
    let d_hi = spec_dec(e.1.1);
    let s1 = t_open + e.0;
    let s2 = s1 + t_sep;
    let s3 = s2 + d_lo;
    let s4 = s3 + t_sep;
    let s5 = s4 + d_hi;
    assert(entry_text(e) == s5 + t_close);
    lemma_dec_reads_back(e.1.0);
    lemma_dec_reads_back(e.1.1);

    lemma_scan_single(ScanState::OpenEntry, '(', acc, known);
    assert(scan(ScanState::OpenEntry, t_open, acc, known) == Ok::<_, ParseError>(
        (ScanState::Name(Seq::empty()), acc),
    ));

    lemma_scan_append(ScanState::OpenEntry, t_open, e.0, acc, known);
    lemma_scan_name_chars(Seq::empty(), e.0, acc, known);
    assert(Seq::<char>::empty() + e.0 =~= e.0);
    assert(scan(ScanState::OpenEntry, s1, acc, known) == Ok::<_, ParseError>(
        (ScanState::Name(e.0), acc),
    ));

    lemma_scan_append(ScanState::OpenEntry, s1, t_sep, acc, known);
    assert(t_sep =~= seq![','] + seq![' ']);
    lemma_scan_append(ScanState::Name(e.0), seq![','], seq![' '], acc, known);
    lemma_scan_single(ScanState::Name(e.0), ',', acc, known);
    assert(scan_step(ScanState::Name(e.0), ',', known) == Ok::<_, ParseError>(
        (ScanState::Low(e.0, 0), None::<EntryV>),
    ));
    lemma_scan_single(ScanState::Low(e.0, 0), ' ', acc, known);
    assert(scan(ScanState::OpenEntry, s2, acc, known) == Ok::<_, ParseError>(
        (ScanState::Low(e.0, 0), acc),
    ));

    lemma_scan_append(ScanState::OpenEntry, s2, d_lo, acc, known);
    lemma_scan_digits_low(e.0, 0, d_lo, acc, known);
    assert(scan(ScanState::OpenEntry, s3, acc, known) == Ok::<_, ParseError>(
        (ScanState::Low(e.0, e.1.0), acc),
    ));

    lemma_scan_append(ScanState::OpenEntry, s3, t_sep, acc, known);
    lemma_scan_append(ScanState::Low(e.0, e.1.0), seq![','], seq![' '], acc, known);
    lemma_scan_single(ScanState::Low(e.0, e.1.0), ',', acc, known);
    lemma_scan_single(ScanState::High(e.0, e.1.0, 0), ' ', acc, known);
    assert(scan(ScanState::OpenEntry, s4, acc, known) == Ok::<_, ParseError>(
        (ScanState::High(e.0, e.1.0, 0), acc),
    ));

    lemma_scan_append(ScanState::OpenEntry, s4, d_hi, acc, known);
    lemma_scan_digits_high(e.0, e.1.0, 0, d_hi, acc, known);
    assert(scan(ScanState::OpenEntry, s5, acc, known) == Ok::<_, ParseError>(
        (ScanState::High(e.0, e.1.0, e.1.1), acc),
    ));

    lemma_scan_append(ScanState::OpenEntry, s5, t_close, acc, known);
    lemma_scan_single(ScanState::High(e.0, e.1.0, e.1.1), ')', acc, known);
    assert(scan_step(ScanState::High(e.0, e.1.0, e.1.1), ')', known) == Ok::<_, ParseError>(
        (ScanState::CloseEntry, Some((e.0, (e.1.0, e.1.1)))),
    ));
    assert((e.0, (e.1.0, e.1.1)) == e);
}

/// The wire text of the entries after the first: each preceded by `, `.
spec fn sep_entries_text(s: Seq<EntryV>) -> Seq<char>
    decreases s.len(),
{
    if s.len() == 0 {
        Seq::empty()
    } else {
        seq![',', ' '] + entry_text(s[0]) + sep_entries_text(s.drop_first())
    }
}

/// Appending an entry appends its separated text.
proof fn lemma_sep_entries_snoc(t: Seq<EntryV>, e: EntryV)
    ensures
        sep_entries_text(t.push(e)) == sep_entries_text(t) + seq![',', ' '] + entry_text(e),
    decreases t.len(),
{
    reveal_with_fuel(sep_entries_text, 3);
    if t.len() == 0 {
        assert(t.push(e).drop_first() =~= Seq::<EntryV>::empty());
        assert(sep_entries_text(t.push(e)) =~= sep_entries_text(t) + seq![',', ' '] + entry_text(
            e,
        ));
    } else {
        assert(t.push(e)[0] == t[0]);
        assert(t.push(e).drop_first() =~= t.drop_first().push(e));
        lemma_sep_entries_snoc(t.drop_first(), e);
        assert(sep_entries_text(t.push(e)) =~= sep_entries_text(t) + seq![',', ' '] + entry_text(
            e,
        ));
    }
}

/// The whole entries text is the first entry's text followed by the
/// separated text of the rest.
proof fn lemma_entries_text_front(s: Seq<EntryV>)
    requires
        s.len() > 0,
    ensures
        entries_text(s) == entry_text(s[0]) + sep_entries_text(s.drop_first()),
    decreases s.len(),
{
    if s.len() == 1 {
        assert(s.drop_first() =~= Seq::<EntryV>::empty());
        assert(entries_text(s) =~= entry_text(s[0]) + sep_entries_text(s.drop_first()));
    } else {
        lemma_entries_text_front(s.drop_last());
        assert(s.drop_last()[0] == s[0]);
        assert(s.drop_first().drop_last() =~= s.drop_last().drop_first());
        lemma_sep_entries_snoc(s.drop_first().drop_last(), s.last());
        assert(s.drop_first().drop_last().push(s.last()) =~= s.drop_first());
        assert(entries_text(s) =~= entry_text(s[0]) + sep_entries_text(s.drop_first()));
    }
}

/// Scanning the separated text of the remaining entries, closed by `]`,
/// appends them all and ends the recognizer.
proof fn lemma_scan_entries_tail(rest: Seq<EntryV>, acc: Seq<EntryV>, known: Seq<Seq<char>>)
    requires
        forall|k: int| 0 <= k < rest.len() ==> entry_valid(#[trigger] rest[k], known),
        names_unique(acc + rest),
    ensures
        scan(ScanState::CloseEntry, sep_entries_text(rest) + seq![']'], acc, known) == Ok::<
            _,
            ParseError,
        >((ScanState::Done, acc + rest)),
    decreases rest.len(),
{
    if rest.len() == 0 {
        assert(sep_entries_text(rest) + seq![']'] =~= seq![']']);
        lemma_scan_single(ScanState::CloseEntry, ']', acc, known);
        assert(acc + rest =~= acc);
    } else {
        let e = rest[0];
        let s1 = seq![','] + seq![' '];
        let s2 = s1 + entry_text(e);
        let tail = sep_entries_text(rest.drop_first()) + seq![']'];
        assert(sep_entries_text(rest) + seq![']'] =~= s2 + tail);

        lemma_scan_append(ScanState::CloseEntry, seq![','], seq![' '], acc, known);
        lemma_scan_single(ScanState::CloseEntry, ',', acc, known);
        lemma_scan_single(ScanState::OpenEntry, ' ', acc, known);
        assert(scan(ScanState::CloseEntry, s1, acc, known) == Ok::<_, ParseError>(
            (ScanState::OpenEntry, acc),
        ));

        lemma_scan_append(ScanState::CloseEntry, s1, entry_text(e), acc, known);
        lemma_scan_entry(e, acc, known);
        // the name is fresh in `acc`, so the insert is an append
        assert forall|j: int| 0 <= j < acc.len() implies (#[trigger] acc[j]).0 != e.0 by {
            assert((acc + rest)[j] == acc[j]);
            assert((acc + rest)[acc.len() as int] == e);
            assert((acc + rest)[j].0 != (acc + rest)[acc.len() as int].0);
        }
        lemma_find_name_absent(acc, e.0, 0);
        assert(spec_insert(acc, e.0, e.1) == acc.push(e));
        assert(scan(ScanState::CloseEntry, s2, acc, known) == Ok::<_, ParseError>(
            (ScanState::CloseEntry, acc.push(e)),
        ));

        lemma_scan_append(ScanState::CloseEntry, s2, tail, acc, known);
        assert(acc.push(e) + rest.drop_first() =~= acc + rest);
        lemma_scan_entries_tail(rest.drop_first(), acc.push(e), known);
    }
}

/// Round trip: parsing the serialized text of any well-formed ballot whose
/// names are valid and known yields exactly that ballot, entry for entry
/// (and so, in particular, the same set of name-rank pairs).
pub proof fn lemma_round_trip(b: Seq<EntryV>, known: Seq<Seq<char>>)
    requires
        serializable(b, known),
    ensures
        spec_parse(spec_serialize(b), known) == Ok::<_, ParseError>(b),
{
    let empty_acc = Seq::<EntryV>::empty();
    let text = spec_serialize(b);
    lemma_scan_single(ScanState::Begin, '[', empty_acc, known);
    if b.len() == 0 {
        assert(text =~= seq!['['] + seq![']']);
        lemma_scan_append(ScanState::Begin, seq!['['], seq![']'], empty_acc, known);
        lemma_scan_single(ScanState::OpenEntry, ']', empty_acc, known);
        assert(scan(ScanState::Begin, text, empty_acc, known) == Ok::<_, ParseError>(
            (ScanState::Done, empty_acc),
        ));
        assert(b =~= empty_acc);
    } else {
        lemma_entries_text_front(b);
        let first = seq!['['] + entry_text(b[0]);
        let tail = sep_entries_text(b.drop_first()) + seq![']'];
        assert(text =~= first + tail);

        lemma_scan_append(ScanState::Begin, seq!['['], entry_text(b[0]), empty_acc, known);
        lemma_scan_entry(b[0], empty_acc, known);
        lemma_find_name_absent(empty_acc, b[0].0, 0);
        assert(spec_insert(empty_acc, b[0].0, b[0].1) == empty_acc.push(b[0]));
        assert(scan(ScanState::Begin, first, empty_acc, known) == Ok::<_, ParseError>(
            (ScanState::CloseEntry, empty_acc.push(b[0])),
        ));

        lemma_scan_append(ScanState::Begin, first, tail, empty_acc, known);
        assert(empty_acc.push(b[0]) + b.drop_first() =~= b);
        lemma_scan_entries_tail(b.drop_first(), empty_acc.push(b[0]), known);
        assert(scan(ScanState::Begin, text, empty_acc, known) == Ok::<_, ParseError>(
            (ScanState::Done, b),
        ));
    }
}

/// In the recognizer's number-reading states, the entry's name has already
/// been checked against the known set.
pub open spec fn state_names_ok(st: ScanState, known: Seq<Seq<char>>) -> bool {
    match st {
        ScanState::Low(n, _) => known.contains(n),
        ScanState::High(n, _, _) => known.contains(n),
        _ => true,
    }
}

/// Every collected entry names a known alternative and carries a valid rank.
pub open spec fn entries_ok(acc: Seq<EntryV>, known: Seq<Seq<char>>) -> bool {
    forall|k: int|
        0 <= k < acc.len() ==> known.contains((#[trigger] acc[k]).0) && acc[k].1.0 <= acc[k].1.1
}

/// Inserting a known name with a valid rank keeps the entries acceptable.
proof fn lemma_insert_ok(acc: Seq<EntryV>, name: Seq<char>, rank: (u64, u64), known: Seq<Seq<char>>)
    requires
        entries_ok(acc, known),
        known.contains(name),
        rank.0 <= rank.1,
    ensures
        entries_ok(spec_insert(acc, name, rank), known),
{
    lemma_find_name_absent(acc, name, 0);
    let t = spec_insert(acc, name, rank);
    assert forall|k: int| 0 <= k < t.len() implies known.contains((#[trigger] t[k]).0) && t[k].1.0
        <= t[k].1.1 by {
        if t[k] != (name, rank) {
            assert(t[k] == acc[k]);
        }
    }
}

/// What the recognizer guarantees of everything it collects: unique names,
/// known names, valid ranks.
proof fn lemma_scan_ok(st: ScanState, s: Seq<char>, acc: Seq<EntryV>, known: Seq<Seq<char>>)
    requires
        names_unique(acc),
        entries_ok(acc, known),
        state_names_ok(st, known),
    ensures
        match scan(st, s, acc, known) {
            Ok((st2, acc2)) => names_unique(acc2) && entries_ok(acc2, known) && state_names_ok(
                st2,
                known,
            ),
            Err(_) => true,
        },
    decreases s.len(),
{
    reveal_with_fuel(scan, 1);
    if s.len() == 0 {
    } else if is_space(s[0]) {
        lemma_scan_ok(st, s.drop_first(), acc, known);
    } else {
        match scan_step(st, s[0], known) {
            Ok((st2, e)) => {
                match e {
                    Some(en) => {
                        lemma_insert_ok(acc, en.0, en.1, known);
                        assert(ranks_wf(acc));
                        lemma_insert_wf(acc, en.0, en.1);
                        lemma_scan_ok(st2, s.drop_first(), spec_insert(acc, en.0, en.1), known);
                    },
                    None => {
                        lemma_scan_ok(st2, s.drop_first(), acc, known);
                    },
                }
            },
            Err(_) => {},
        }
    }
}

/// A parsed ballot is well-formed: unique names and valid ranks.
pub proof fn lemma_parse_wf(s: Seq<char>, known: Seq<Seq<char>>)
    ensures
        spec_parse(s, known) matches Ok(b) ==> names_unique(b) && ranks_wf(b) && entries_ok(
            b,
            known,
        ),
{
    lemma_scan_ok(ScanState::Begin, s, Seq::empty(), known);
    if spec_parse(s, known) is Ok {
        let b = spec_parse(s, known)->Ok_0;
        assert(entries_ok(b, known));
        assert forall|k: int| 0 <= k < b.len() implies (#[trigger] b[k]).1.0 <= b[k].1.1 by {
            assert(known.contains(b[k].0) && b[k].1.0 <= b[k].1.1);
        }
    }
}

/// The recognizer rejects any entry whose name is outside the known set:
/// no parsed ballot ever holds one.
pub proof fn lemma_parse_names_known(s: Seq<char>, known: Seq<Seq<char>>)
    ensures
        spec_parse(s, known) matches Ok(b) ==> forall|k: int|
            0 <= k < b.len() ==> known.contains((#[trigger] b[k]).0),
{
    lemma_parse_wf(s, known);
}

/// The recognizer rejects any entry whose rank has `low > high`: every rank
/// of a parsed ballot satisfies `low <= high`.
pub proof fn lemma_parse_ranks_valid(s: Seq<char>, known: Seq<Seq<char>>)
    ensures
        spec_parse(s, known) matches Ok(b) ==> ranks_wf(b),
{
    lemma_parse_wf(s, known);
}

/// The recognizer's exec states; the name and bounds read so far live in
/// locals beside it.
#[derive(Clone, Copy, PartialEq, Eq, Structural)]
enum Mode {
    Begin,
    OpenEntry,
    Name,
    Low,
    High,
    CloseEntry,
    Done,
}

/// The spec state that a mode and the locals beside it stand for.
spec fn mode_state(m: Mode, name: Seq<char>, low: u64, high: u64) -> ScanState {
    match m {
        Mode::Begin => ScanState::Begin,
        Mode::OpenEntry => ScanState::OpenEntry,
        Mode::Name => ScanState::Name(name),
        Mode::Low => ScanState::Low(name, low),
        Mode::High => ScanState::High(name, low, high),
        Mode::CloseEntry => ScanState::CloseEntry,
        Mode::Done => ScanState::Done,
    }
}

/// Whether one of the known names reads `name`.
fn contains_name(names: &Vec<String>, name: &String) -> (r: bool)
    ensures
        r == names_view(names@).contains(name@),
{
    let n = names.len();
    let mut j: usize = 0;
    while j < n
        invariant
            n == names@.len(),
            j <= n,
            forall|k: int| 0 <= k < j ==> (#[trigger] names@[k])@ != name@,
        decreases n - j,
    {
        if names[j] == *name {
            proof {
                assert(names_view(names@)[j as int] == name@);
            }
            return true;
        }
        j += 1;
    }
    proof {
        assert forall|k: int| 0 <= k < names_view(names@).len() implies names_view(names@)[k]
            != name@ by {
            assert(names_view(names@)[k] == names@[k]@);
        }
    }
    false
}

/// Parses ballot wire text against the known alternative names: strict,
/// whitespace-insensitive, all-or-nothing. Returns the ballot, or the
/// error that rejected the text: `ProtocolSyntax` for a character outside
/// the grammar (including an unclosed or empty-named entry and a rank
/// bound too large for 64 bits), `UnknownAlternative` for a name outside
/// the known set, `InvalidRank` for a rank with `low > high`.
#[verifier::rlimit(100)]
pub fn parse_ballot(s: &str, alternatives: &Vec<String>) -> (r: Result<Ballot, ParseError>)
    ensures
        match r {
            Ok(b) => spec_parse(s@, names_view(alternatives@)) == Ok::<_, ParseError>(b@)
                && b.wf(),
            Err(e) => spec_parse(s@, names_view(alternatives@)) == Err::<Seq<EntryV>, _>(e),
        },
{
    let ghost known = names_view(alternatives@);
    let len = s.unicode_len();
    let mut ballot = Ballot::new();
    proof {
        reveal_with_fuel(scan, 1);
        assert(s@.take(0) =~= Seq::<char>::empty());
    }
    let mut mode = Mode::Begin;
    let mut name = String::new();
    let mut low: u64 = 0;
    let mut high: u64 = 0;
    let mut i: usize = 0;
    while i < len
        invariant
            len == s@.len(),
            i <= len,
            known == names_view(alternatives@),
            scan(ScanState::Begin, s@.take(i as int), Seq::empty(), known) == Ok::<
                _,
                ParseError,
            >((mode_state(mode, name@, low, high), ballot@)),
        decreases len - i,
    {
        let c = s.get_char(i);
        let ghost st = mode_state(mode, name@, low, high);
        proof {
            lemma_scan_snoc(st, s@, i as int, ballot@, known);
        }
        let u = c as u32;
        let space = c == ' ' || c == '\t' || c == '\r' || c == '\n';
        if !space {
            match mode {
                Mode::Begin => {
                    if c == '[' {
                        mode = Mode::OpenEntry;
                    } else {
                        proof {
                            lemma_scan_error_prefix(s@, i + 1, known, ParseError::ProtocolSyntax);
                        }
                        return Err(ParseError::ProtocolSyntax);
                    }
                },
                Mode::OpenEntry => {
                    if c == ']' {
                        mode = Mode::Done;
                    } else if c == '(' {
                        mode = Mode::Name;
                        name = String::new();
                    } else {
                        proof {
                            lemma_scan_error_prefix(s@, i + 1, known, ParseError::ProtocolSyntax);
                        }
                        return Err(ParseError::ProtocolSyntax);
                    }
                },
                Mode::Name => {
                    if c == ',' {
                        if name.unicode_len() == 0 {
                            proof {
                            lemma_scan_error_prefix(s@, i + 1, known, ParseError::ProtocolSyntax);
                        }
                        return Err(ParseError::ProtocolSyntax);
                        }
                        if contains_name(alternatives, &name) {
                            mode = Mode::Low;
                            low = 0;
                        } else {
                            proof {
                                lemma_scan_error_prefix(
                                    s@,
                                    i + 1,
                                    known,
                                    ParseError::UnknownAlternative,
                                );
                            }
                            return Err(ParseError::UnknownAlternative);
                        }
                    } else if (97 <= u && u <= 122) || (65 <= u && u <= 90) || (48 <= u && u
                        <= 57) {
                        push_char(&mut name, c);
                    } else {
                        proof {
                            lemma_scan_error_prefix(s@, i + 1, known, ParseError::ProtocolSyntax);
                        }
                        return Err(ParseError::ProtocolSyntax);
                    }
                },
                Mode::Low => {
                    if c == ',' {
                        mode = Mode::High;
                        high = 0;
                    } else if 48 <= u && u <= 57 {
                        let d = (u - 48) as u64;
                        match low.checked_mul(10) {
                            Some(m) => match m.checked_add(d) {
                                Some(v) => {
                                    low = v;
                                },
                                None => {
                                    proof {
                            lemma_scan_error_prefix(s@, i + 1, known, ParseError::ProtocolSyntax);
                        }
                        return Err(ParseError::ProtocolSyntax);
                                },
                            },
                            None => {
                                proof {
                            lemma_scan_error_prefix(s@, i + 1, known, ParseError::ProtocolSyntax);
                        }
                        return Err(ParseError::ProtocolSyntax);
                            },
                        }
                    } else {
                        proof {
                            lemma_scan_error_prefix(s@, i + 1, known, ParseError::ProtocolSyntax);
                        }
                        return Err(ParseError::ProtocolSyntax);
                    }
                },
                Mode::High => {
                    if c == ')' {
                        if low <= high {
                            let rank = match Rank::new(low, high) {
                                Some(rank) => rank,
                                None => {
                                    proof {
                                        assert(false);
                                    }
                                    return Err(ParseError::ProtocolSyntax);
                                },
                            };
                            ballot.insert(name.clone(), rank);
                            mode = Mode::CloseEntry;
                        } else {
                            proof {
                                lemma_scan_error_prefix(s@, i + 1, known, ParseError::InvalidRank);
                            }
                            return Err(ParseError::InvalidRank);
                        }
                    } else if 48 <= u && u <= 57 {
                        let d = (u - 48) as u64;
                        match high.checked_mul(10) {
                            Some(m) => match m.checked_add(d) {
                                Some(v) => {
                                    high = v;
                                },
                                None => {
                                    proof {
                            lemma_scan_error_prefix(s@, i + 1, known, ParseError::ProtocolSyntax);
                        }
                        return Err(ParseError::ProtocolSyntax);
                                },
                            },
                            None => {
                                proof {
                            lemma_scan_error_prefix(s@, i + 1, known, ParseError::ProtocolSyntax);
                        }
                        return Err(ParseError::ProtocolSyntax);
                            },
                        }
                    } else {
                        proof {
                            lemma_scan_error_prefix(s@, i + 1, known, ParseError::ProtocolSyntax);
                        }
                        return Err(ParseError::ProtocolSyntax);
                    }
                },
                Mode::CloseEntry => {
                    if c == ']' {
                        mode = Mode::Done;
                    } else if c == ',' {
                        mode = Mode::OpenEntry;
                    } else {
                        proof {
                            lemma_scan_error_prefix(s@, i + 1, known, ParseError::ProtocolSyntax);
                        }
                        return Err(ParseError::ProtocolSyntax);
                    }
                },
                Mode::Done => {
                    proof {
                        lemma_scan_error_prefix(s@, i + 1, known, ParseError::ProtocolSyntax);
                    }
                    return Err(ParseError::ProtocolSyntax);
                },
            }
        }
        i += 1;
    }
    proof {
        assert(s@.take(len as int) =~= s@);
        lemma_parse_wf(s@, known);
    }
    match mode {
        Mode::Done => Ok(ballot),
        _ => Err(ParseError::ProtocolSyntax),
    }
}

/// Writes one entry's wire text onto the end of `out`.
fn push_entry(out: &mut String, name: &String, rank: Rank)
    ensures
        final(out)@ == old(out)@ + entry_text((name@, rank@)),
{
    push_char(out, '(');
    out.append(name.as_str());
    push_char(out, ',');
    push_char(out, ' ');
    push_decimal(out, rank.low());
    push_char(out, ',');
    push_char(out, ' ');
    push_decimal(out, rank.high());
    push_char(out, ')');
    proof {
        assert(final(out)@ =~= old(out)@ + entry_text((name@, rank@)));
    }
}

/// Emits the wire text of `ballot`: `[(name, low, high), ...]` in the
/// ballot's own entry order, `[]` for the empty ballot.
pub fn serialize_ballot(ballot: &Ballot) -> (r: String)
    ensures
        r@ == spec_serialize(ballot@),
{
    let mut out = String::new();
    push_char(&mut out, '[');
    let n = ballot.len();
    let mut i: usize = 0;
    while i < n
        invariant
            n == ballot@.len(),
            i <= n,
            out@ == seq!['['] + entries_text(ballot@.take(i as int)),
        decreases n - i,
    {
        if i > 0 {
            push_char(&mut out, ',');
            push_char(&mut out, ' ');
        }
        let (name, rank) = ballot.entry(i);
        push_entry(&mut out, &name, rank);
        proof {
            let t = ballot@.take(i + 1 as int);
            assert(t.drop_last() =~= ballot@.take(i as int));
            assert(t.last() == ballot@[i as int]);
            assert(out@ =~= seq!['['] + entries_text(ballot@.take(i + 1 as int)));
        }
        i += 1;
    }
    push_char(&mut out, ']');
    proof {
        assert(ballot@.take(n as int) =~= ballot@);
        assert(out@ =~= spec_serialize(ballot@));
    }
    out
}

} // verus!
