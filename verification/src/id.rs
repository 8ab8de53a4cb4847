//! The stash identifier scheme: an entry is keyed by a name and a numeric
//! index. On disk the two are joined by `_`; on the command line by `:`.
//! Parsing splits on the last occurrence of the separator and reads the
//! suffix as a decimal index.

use vstd::prelude::*;
use vstd::string::StrSliceExecFns;

verus! {

/// Compares two string slices character by character.
pub fn str_eq(a: &str, b: &str) -> (r: bool)
    ensures
        r == (a@ == b@),
{
    let n = a.unicode_len();
    if n != b.unicode_len() {
        return false;
    }
    let mut i: usize = 0;
    while i < n
        invariant
            n == a@.len(),
            n == b@.len(),
            i <= n,
            forall|j: int| 0 <= j < i ==> a@[j] == b@[j],
        decreases n - i,
    {
        if a.get_char(i) != b.get_char(i) {
            return false;
        }
        i = i + 1;
    }
    proof {
        assert(a@ =~= b@);
    }
    true
}

/// Error raised when a stash identifier cannot be parsed.
#[derive(Clone, Copy, Debug, PartialEq, Eq, Structural)]
pub enum IdError {
    /// The text after the last separator is not a decimal index that fits
    /// in `u32`.
    InvalidIndex,
    /// An on-disk identifier carried no separator at all, so it names no
    /// index.
    MissingIndex,
}

/// The separator joining name and index inside on-disk filenames.
pub open spec fn internal_separator() -> char {
    '_'
}

/// The separator joining name and index in user-supplied identifiers.
pub open spec fn arg_separator() -> char {
    ':'
}

/// Is `c` a decimal digit?
pub open spec fn is_digit(c: char) -> bool {
    48 <= c as u32 <= 57
}

/// Every character of `s` is a decimal digit.
pub open spec fn all_digits(s: Seq<char>) -> bool {
    forall|i: int| 0 <= i < s.len() ==> is_digit(s[i])
}

/// The number denoted by `s` read as a big-endian decimal numeral.
pub open spec fn digits_val(s: Seq<char>) -> int
    decreases s.len(),
{
    if s.len() == 0 {
        0
    } else {
        digits_val(s.drop_last()) * 10 + (s.last() as u32 - 48)
    }
}

/// `s` is a well-formed index numeral: non-empty, all digits, and its
/// value fits in `u32`.
pub open spec fn valid_index(s: Seq<char>) -> bool {
    s.len() > 0 && all_digits(s) && digits_val(s) <= u32::MAX
}

/// The position of the last occurrence of `c` in `s`, or `-1` if `c` does
/// not occur.
pub open spec fn last_pos(s: Seq<char>, c: char) -> int
    decreases s.len(),
{
    if s.len() == 0 {
        -1
    } else if s.last() == c {
        s.len() - 1
    } else {
        last_pos(s.drop_last(), c)
    }
}

/// `last_pos` returns `-1` exactly when `c` is absent, and otherwise the
/// greatest position holding `c`.
pub proof fn lemma_last_pos(s: Seq<char>, c: char)
    ensures
        -1 <= last_pos(s, c) < s.len(),
        last_pos(s, c) == -1 <==> (forall|i: int| 0 <= i < s.len() ==> s[i] != c),
        last_pos(s, c) >= 0 ==> last_pos(s, c) < s.len() && s[last_pos(s, c)] == c && (forall|j: int|
            last_pos(s, c) < j < s.len() ==> s[j] != c),
    decreases s.len(),
{
    if s.len() > 0 && s.last() != c {
        lemma_last_pos(s.drop_last(), c);
        assert(forall|i: int| 0 <= i < s.len() - 1 ==> s[i] == s.drop_last()[i]);
    }
}

/// The value of an all-digit numeral never shrinks as the numeral grows
/// to the right.
pub proof fn lemma_digits_val_bounds(s: Seq<char>, i: int)
    requires
        all_digits(s),
        0 <= i <= s.len(),
    ensures
        0 <= digits_val(s.take(i)) <= digits_val(s),
    decreases s.len() - i,
{
    if i == s.len() {
        assert(s.take(i) =~= s);
        lemma_digits_val_nonneg(s);
    } else {
        lemma_digits_val_bounds(s, i + 1);
        assert(s.take(i + 1).drop_last() =~= s.take(i));
        assert(s.take(i + 1).last() == s[i]);
        lemma_digits_val_nonneg(s.take(i));
    }
}

/// An all-digit numeral has a non-negative value.
pub proof fn lemma_digits_val_nonneg(s: Seq<char>)
    requires
        all_digits(s),
    ensures
        digits_val(s) >= 0,
    decreases s.len(),
{
    if s.len() > 0 {
        assert(all_digits(s.drop_last()));
        lemma_digits_val_nonneg(s.drop_last());
    }
}

/// Reads `s` as a decimal `u32` index. Succeeds exactly on the
/// well-formed numerals, and then returns their value.
pub fn parse_index(s: &str) -> (r: Result<u32, IdError>)
    ensures
        match r {
            Ok(v) => valid_index(s@) && v == digits_val(s@),
            Err(e) => !valid_index(s@) && e == IdError::InvalidIndex,
        },
{
    let n = s.unicode_len();
    if n == 0 {
        return Err(IdError::InvalidIndex);
    }
    let mut v: u32 = 0;
    let mut i: usize = 0;
    while i < n
        invariant
            n == s@.len(),
            0 < n,
            i <= n,
            all_digits(s@.take(i as int)),
            v == digits_val(s@.take(i as int)),
        decreases n - i,
    {
        let c = s.get_char(i);
        let d = c as u32;
        proof {
            assert(s@.take(i + 1).drop_last() =~= s@.take(i as int));
            assert(s@.take(i + 1).last() == s@[i as int]);
        }
        if d < 48 || d > 57 {
            assert(!is_digit(s@[i as int]));
            return Err(IdError::InvalidIndex);
        }
        let dv = d - 48;
        if v > (u32::MAX - dv) / 10 {
            proof {
                assert(v * 10 + dv > u32::MAX) by (nonlinear_arith)
                    requires
                        v > (u32::MAX - dv) / 10,
                        dv < 10,
                        u32::MAX == 4294967295,
                {}
                assert(digits_val(s@.take(i + 1)) == v * 10 + dv);
                if all_digits(s@) {
                    lemma_digits_val_bounds(s@, i + 1);
                }
            }
            return Err(IdError::InvalidIndex);
        }
        proof {
            assert(v * 10 + dv <= u32::MAX) by (nonlinear_arith)
                requires
                    v <= (u32::MAX - dv) / 10,
                    dv < 10,
                    u32::MAX == 4294967295,
            {}
        }
        v = v * 10 + dv;
        i = i + 1;
    }
    proof {
        assert(s@.take(n as int) =~= s@);
    }
    Ok(v)
}

/// What parsing an identifier yields: the name and, where a separator was
/// present, the index after it. `None` stands for a malformed index.
pub open spec fn parse_id_spec(s: Seq<char>, sep: char) -> Option<(Seq<char>, Option<u32>)> {
    let p = last_pos(s, sep);
    if p == -1 {
        Some((s, None::<u32>))
    } else {
        let idx = s.skip(p + 1);
        if valid_index(idx) {
            Some((s.take(p), Some(digits_val(idx) as u32)))
        } else {
            None
        }
    }
}

/// Splits `s` on the last occurrence of `sep` into a name and a decimal
/// index; a string without `sep` is all name. Fails exactly when the text
/// after the last `sep` is not a `u32` numeral.
pub fn parse_id(s: &str, sep: char) -> (r: Result<(String, Option<u32>), IdError>)
    ensures
        match r {
            Ok((name, idx)) => parse_id_spec(s@, sep) == Some((name@, idx)),
            Err(e) => parse_id_spec(s@, sep) is None && e == IdError::InvalidIndex,
        },
{
    let n = s.unicode_len();
    let mut i: usize = n;
    let mut pos: Option<usize> = None;
    while i > 0 && pos.is_none()
        invariant
            n == s@.len(),
            i <= n,
            pos is None ==> forall|j: int| i <= j < n ==> s@[j] != sep,
            match pos {
                Some(p) => p < n && s@[p as int] == sep && (forall|j: int|
                    p < j < n ==> s@[j] != sep),
                None => true,
            },
        decreases i,
    {
        i = i - 1;
        let c = s.get_char(i);
        if c == sep {
            pos = Some(i);
        }
    }
    proof {
        lemma_last_pos(s@, sep);
    }
    match pos {
        None => {
            assert(last_pos(s@, sep) == -1);
            Ok((s.to_owned(), None))
        },
        Some(p) => {
            proof {
                // The found position carries `sep` with none to its right,
                // so it is the last occurrence.
                let lp = last_pos(s@, sep);
                if lp == -1 {
                    assert(forall|i: int| 0 <= i < s@.len() ==> s@[i] != sep);
                    assert(s@[p as int] != sep);
                } else if lp < p {
                    assert(forall|j: int| lp < j < s@.len() ==> s@[j] != sep);
                    assert(s@[p as int] != sep);
                } else if lp > p {
                    assert(s@[lp] != sep);
                }
                assert(lp == p);
            }
            let name = s.substring_char(0, p).to_owned();
            let idx_str = s.substring_char(p + 1, n);
            assert(idx_str@ =~= s@.skip(p + 1));
            assert(name@ =~= s@.take(p as int));
            match parse_index(idx_str) {
                Ok(v) => Ok((name, Some(v))),
                Err(e) => Err(e),
            }
        },
    }
}

/// Parses a user-supplied identifier, `name` or `name:index`.
pub fn parse_id_arg(s: &str) -> (r: Result<(String, Option<u32>), IdError>)
    ensures
        match r {
            Ok((name, idx)) => parse_id_spec(s@, arg_separator()) == Some((name@, idx)),
            Err(e) => parse_id_spec(s@, arg_separator()) is None && e == IdError::InvalidIndex,
        },
{
    parse_id(s, ':')
}

/// Parses an on-disk identifier, always of the form `name_index`.
pub fn parse_id_internal(s: &str) -> (r: Result<(String, u32), IdError>)
    ensures
        match r {
            Ok((name, idx)) => parse_id_spec(s@, internal_separator()) == Some(
                (name@, Some(idx)),
            ),
            Err(e) => match e {
                IdError::InvalidIndex => parse_id_spec(s@, internal_separator()) is None,
                IdError::MissingIndex => parse_id_spec(s@, internal_separator()) == Some(
                    (s@, None::<u32>),
                ),
            },
        },
{
    match parse_id(s, '_') {
        Ok((name, Some(idx))) => Ok((name, idx)),
        Ok((_, None)) => Err(IdError::MissingIndex),
        Err(e) => Err(e),
    }
}

/// The digit character denoting `d`.
pub open spec fn digit_char(d: int) -> char {
    if d == 0 {
        '0'
    } else if d == 1 {
        '1'
    } else if d == 2 {
        '2'
    } else if d == 3 {
        '3'
    } else if d == 4 {
        '4'
    } else if d == 5 {
        '5'
    } else if d == 6 {
        '6'
    } else if d == 7 {
        '7'
    } else if d == 8 {
        '8'
    } else {
        '9'
    }
}

/// The shortest decimal numeral denoting `n`.
pub open spec fn dec_str(n: nat) -> Seq<char>
    decreases n,
{
    if n < 10 {
        seq![digit_char(n as int)]
    } else {
        dec_str(n / 10).push(digit_char((n % 10) as int))
    }
}

/// The digit characters denote the values 0 through 9.
pub proof fn lemma_digit_char_val(d: int)
    requires
        0 <= d < 10,
    ensures
        digit_char(d) as u32 == 48 + d,
        is_digit(digit_char(d)),
{
}

/// A decimal numeral consists of digits and denotes the number it was
/// built from.
pub proof fn lemma_dec_str_val(n: nat)
    ensures
        dec_str(n).len() > 0,
        all_digits(dec_str(n)),
        digits_val(dec_str(n)) == n,
    decreases n,
{
    if n < 10 {
        lemma_digit_char_val(n as int);
        let s = dec_str(n);
        assert(s.len() == 1);
        assert(s.last() == digit_char(n as int));
        assert(s.drop_last() =~= Seq::<char>::empty());
        assert(digits_val(s.drop_last()) == 0);
        assert(digits_val(s) == digits_val(s.drop_last()) * 10 + (s.last() as u32 - 48));
        assert(digits_val(s) == n);
    } else {
        lemma_dec_str_val(n / 10);
        lemma_digit_char_val((n % 10) as int);
        let s = dec_str(n);
        assert(s.drop_last() =~= dec_str(n / 10));
        assert(s.last() == digit_char((n % 10) as int));
        assert(forall|i: int| 0 <= i < s.len() - 1 ==> s[i] == dec_str(n / 10)[i]);
        assert(digits_val(s) == n / 10 * 10 + n % 10);
        assert(n / 10 * 10 + n % 10 == n) by (nonlinear_arith);
    }
}

/// The on-disk filename of the entry `(name, index)`: the two joined by
/// the internal separator.
pub open spec fn filename_spec(name: Seq<char>, index: u32) -> Seq<char> {
    name + seq![internal_separator()] + dec_str(index as nat)
}

/// Builds the decimal numeral of `d`, a single digit.
fn digit_string(d: u32) -> (r: String)
    requires
        d < 10,
    ensures
        r@ =~= seq![digit_char(d as int)],
{
    proof {
        reveal_strlit("0");
        reveal_strlit("1");
        reveal_strlit("2");
        reveal_strlit("3");
        reveal_strlit("4");
        reveal_strlit("5");
        reveal_strlit("6");
        reveal_strlit("7");
        reveal_strlit("8");
        reveal_strlit("9");
    }
    match d {
        0 => String::from_str("0"),
        1 => String::from_str("1"),
        2 => String::from_str("2"),
        3 => String::from_str("3"),
        4 => String::from_str("4"),
        5 => String::from_str("5"),
        6 => String::from_str("6"),
        7 => String::from_str("7"),
        8 => String::from_str("8"),
        _ => String::from_str("9"),
    }
}

/// Builds the decimal numeral of `index`.
pub fn index_string(index: u32) -> (r: String)
    ensures
        r@ == dec_str(index as nat),
    decreases index,
{
    if index < 10 {
        digit_string(index)
    } else {
        let mut r = index_string(index / 10);
        let d = digit_string(index % 10);
        r.append(d.as_str());
        proof {
            assert(r@ =~= dec_str(index as nat));
        }
        r
    }
}

/// Builds the on-disk filename of the entry `(name, index)`.
pub fn filename(name: &str, index: u32) -> (r: String)
    ensures
        r@ == filename_spec(name@, index),
{
    let mut r = name.to_owned();
    proof {
        reveal_strlit("_");
    }
    r.append("_");
    let d = index_string(index);
    r.append(d.as_str());
    proof {
        assert(r@ =~= filename_spec(name@, index));
    }
    r
}

/// Encoding an entry's name and index as a filename and parsing that
/// filename back are inverse: whatever the name holds, the parse splits
/// at the separator the encoder wrote, because the index numeral holds
/// no separator.
pub proof fn lemma_filename_parse_round_trip(name: Seq<char>, index: u32)
    ensures
        parse_id_spec(filename_spec(name, index), internal_separator()) == Some(
            (name, Some(index)),
        ),
{
    let sep = internal_separator();
    let f = filename_spec(name, index);
    let d = dec_str(index as nat);
    lemma_dec_str_val(index as nat);
    lemma_last_pos(f, sep);
    // Every digit differs from the separator, so the separator written at
    // position `name.len()` is the last one.
    assert(f[name.len() as int] == sep);
    assert(forall|j: int| name.len() < j < f.len() ==> #[trigger] f[j] == d[j - name.len() - 1]);
    assert(forall|j: int| name.len() < j < f.len() ==> f[j] != sep) by {
        assert(forall|i: int| 0 <= i < d.len() ==> is_digit(#[trigger] d[i]));
    }
    let lp = last_pos(f, sep);
    if lp == -1 {
        assert(f[name.len() as int] != sep);
    } else if lp < name.len() {
        assert(f[name.len() as int] != sep);
    } else if lp > name.len() {
        assert(f[lp] != sep);
    }
    assert(lp == name.len());
    assert(f.skip(lp + 1) =~= d);
    assert(f.take(lp) =~= name);
}

/// A parsed user-facing stash identifier: a name and an optional index,
/// where an absent index means the newest entry of that name.
pub struct StashId {
    pub name: String,
    pub index: Option<u32>,
}

impl StashId {
    /// Parses `name` or `name:index` into a [`StashId`].
    pub fn parse(s: &str) -> (r: Result<StashId, IdError>)
        ensures
            match r {
                Ok(id) => parse_id_spec(s@, arg_separator()) == Some((id.name@, id.index)),
                Err(e) => parse_id_spec(s@, arg_separator()) is None && e
                    == IdError::InvalidIndex,
            },
    {
        match parse_id_arg(s) {
            Ok((name, index)) => Ok(StashId { name, index }),
            Err(e) => Err(e),
        }
    }
}

} // verus!
