use vstd::prelude::*;
use vstd::string::StringSliceAdditionalSpecFns;

verus! {

/// The base58 text (Bitcoin alphabet) of a byte string.
pub uninterp spec fn base58_of(b: Seq<u8>) -> Seq<char>;

/// The lower-case form of a text, character by character as Unicode defines it.
pub uninterp spec fn lower_of(s: Seq<char>) -> Seq<char>;

/// A text without its leading and trailing Unicode white space.
pub uninterp spec fn trim_of(s: Seq<char>) -> Seq<char>;

/// Relies on `bs58::encode(..).into_string()`: the base58 text of the bytes.
#[verifier::external_body]
pub(crate) fn base58_encode(b: &[u8]) -> (r: String)
    ensures
        r@ == base58_of(b@),
{
    bs58::encode(b).into_string()
}

/// Relies on `bs58::decode(..).into_vec()`: a text is accepted exactly when
/// it is the base58 text of some bytes, and then those bytes come back.
#[verifier::external_body]
pub(crate) fn base58_decode(s: &str) -> (r: Option<Vec<u8>>)
    ensures
        r is Some ==> base58_of(r->Some_0@) == s@,
        forall|b: Seq<u8>| #[trigger] base58_of(b) == s@ ==> r is Some && r->Some_0@ == b,
{
    bs58::decode(s).into_vec().ok()
}

/// Relies on `str::to_lowercase`.
#[verifier::external_body]
fn lowercase(s: &str) -> (r: String)
    ensures
        r@ == lower_of(s@),
{
    s.to_lowercase()
}

/// Relies on `str::trim`.
#[verifier::external_body]
fn trim<'a>(s: &'a str) -> (r: &'a str)
    ensures
        r@ == trim_of(s@),
{
    s.trim()
}

/// The value of a hex digit, either case.
pub open spec fn hex_value(c: char) -> Option<u8> {
    if '0' <= c && c <= '9' {
        Some((c as u32 - '0' as u32) as u8)
    } else if 'a' <= c && c <= 'f' {
        Some((c as u32 - 'a' as u32 + 10) as u8)
    } else if 'A' <= c && c <= 'F' {
        Some((c as u32 - 'A' as u32 + 10) as u8)
    } else {
        None
    }
}

/// An even number of hex digits.
pub open spec fn is_hex_text(s: Seq<char>) -> bool {
    &&& s.len() % 2 == 0
    &&& forall|i: int| 0 <= i < s.len() ==> (#[trigger] hex_value(s[i])) is Some
}

/// The bytes of a hex text: two digits per byte, the high one first.
pub open spec fn hex_bytes(s: Seq<char>) -> Seq<u8> {
    Seq::new(
        s.len() / 2,
        |i: int| (hex_value(s[2 * i])->Some_0 * 16 + hex_value(s[2 * i + 1])->Some_0) as u8,
    )
}

/// Relies on `hex::decode`: it accepts an even number of hex digits, either
/// case, and gives one byte per pair, high digit first.
#[verifier::external_body]
fn hex_decode(s: &str) -> (r: Option<Vec<u8>>)
    ensures
        r is Some <==> is_hex_text(s@),
        r is Some ==> r->Some_0@ == hex_bytes(s@),
{
    hex::decode(s).ok()
}

/// How a text argument stands for bytes.
#[derive(Clone, Copy, Debug, PartialEq, Eq)]
pub enum DataFormat {
    /// Hex digits, with or without a leading `0x`.
    Hex,
    /// Decimal byte values separated by commas.
    Bytes,
    /// The UTF-8 encoding of the text itself.
    Utf8,
}

/// Why a text argument does not stand for bytes.
#[derive(Clone, Copy, Debug, PartialEq, Eq)]
pub enum ConvertError {
    InvalidHex,
    InvalidByte,
    InvalidBase58,
}

pub open spec fn format_named(s: Seq<char>) -> Option<DataFormat> {
    if s == "hex"@ {
        Some(DataFormat::Hex)
    } else if s == "bytes"@ {
        Some(DataFormat::Bytes)
    } else if s == "utf8"@ {
        Some(DataFormat::Utf8)
    } else {
        None
    }
}

/// The format a lower-cased name selects, where `Utf8` counts only if `with_utf8`.
pub open spec fn format_selected(lowered: Seq<char>, with_utf8: bool) -> Option<DataFormat> {
    match format_named(lowered) {
        Some(DataFormat::Utf8) => if with_utf8 {
            Some(DataFormat::Utf8)
        } else {
            None
        },
        f => f,
    }
}

/// Whether two texts hold the same characters.
pub fn str_eq(a: &str, b: &str) -> (r: bool)
    ensures
        r == (a@ == b@),
{
    let n = a.unicode_len();
    if n != b.unicode_len() {
        return false;
    }
    let mut i: usize = 0;
    while i < n
        invariant
            n == a@.len(),
            n == b@.len(),
            i <= n,
            forall|k: int| 0 <= k < i ==> a@[k] == b@[k],
        decreases n - i,
    {
        if a.get_char(i) != b.get_char(i) {
            return false;
        }
        i = i + 1;
    }
    assert(a@ =~= b@);
    true
}

/// The format named by an already lower-cased name.
pub fn format_from_lowercase(lowered: &str, with_utf8: bool) -> (r: Option<DataFormat>)
    ensures
        r == format_selected(lowered@, with_utf8),
{
    if str_eq(lowered, "hex") {
        Some(DataFormat::Hex)
    } else if str_eq(lowered, "bytes") {
        Some(DataFormat::Bytes)
    } else if with_utf8 && str_eq(lowered, "utf8") {
        Some(DataFormat::Utf8)
    } else {
        None
    }
}

/// The format a name selects, in any letter case.
pub fn parse_format(name: &str, with_utf8: bool) -> (r: Option<DataFormat>)
    ensures
        r == format_selected(lower_of(name@), with_utf8),
{
    let lowered = lowercase(name);
    format_from_lowercase(lowered.as_str(), with_utf8)
}

pub open spec fn without_hex_prefix(s: Seq<char>) -> Seq<char> {
    if s.len() >= 2 && s[0] == '0' && s[1] == 'x' {
        s.skip(2)
    } else {
        s
    }
}

/// The text past a leading `0x`, if it has one.
pub fn strip_hex_prefix(s: &str) -> (r: &str)
    ensures
        r@ == without_hex_prefix(s@),
{
    let n = s.unicode_len();
    if n >= 2 && s.get_char(0) == '0' && s.get_char(1) == 'x' {
        s.substring_char(2, n)
    } else {
        s
    }
}

pub open spec fn is_digit(c: char) -> bool {
    '0' <= c && c <= '9'
}

/// The number that a run of decimal digits writes.
pub open spec fn digits_value(s: Seq<char>) -> nat
    decreases s.len(),
{
    if s.len() == 0 {
        0
    } else {
        digits_value(s.drop_last()) * 10 + (s.last() as nat - '0' as nat) as nat
    }
}

/// A decimal number without its optional leading `+`.
pub open spec fn unsigned_digits(s: Seq<char>) -> Seq<char> {
    if s.len() > 0 && s[0] == '+' {
        s.drop_first()
    } else {
        s
    }
}

pub open spec fn all_digits(d: Seq<char>) -> bool {
    forall|i: int| 0 <= i < d.len() ==> is_digit(#[trigger] d[i])
}

/// A byte value in decimal: an optional `+`, then one or more digits whose
/// value is at most 255.
pub open spec fn decimal_u8(s: Seq<char>) -> Option<u8> {
    let d = unsigned_digits(s);
    if d.len() > 0 && all_digits(d) && digits_value(d) <= 255 {
        Some(digits_value(d) as u8)
    } else {
        None
    }
}

proof fn lemma_digits_value_prefix(d: Seq<char>, k: int)
    requires
        0 <= k <= d.len(),
        all_digits(d),
    ensures
        digits_value(d.take(k)) <= digits_value(d),
    decreases d.len(),
{
    if k < d.len() {
        assert(d.drop_last().take(k) =~= d.take(k));
        lemma_digits_value_prefix(d.drop_last(), k);
    } else {
        assert(d.take(k) =~= d);
    }
}

/// Reads a byte value written in decimal.
pub fn parse_decimal_u8(s: &str) -> (r: Option<u8>)
    ensures
        r == decimal_u8(s@),
{
    let n = s.unicode_len();
    let start: usize = if n > 0 && s.get_char(0) == '+' {
        1
    } else {
        0
    };
    let ghost d = s@.subrange(start as int, n as int);
    assert(d =~= unsigned_digits(s@));
    if start == n {
        return None;
    }
    let mut acc: u32 = 0;
    let mut i: usize = start;
    assert(d.take(0) =~= Seq::<char>::empty());
    while i < n
        invariant
            n == s@.len(),
            start <= i <= n,
            d == s@.subrange(start as int, n as int),
            d == unsigned_digits(s@),
            acc <= 255,
            acc == digits_value(d.take(i - start)),
            forall|k: int| 0 <= k < i - start ==> is_digit(#[trigger] d[k]),
        decreases n - i,
    {
        let c = s.get_char(i);
        if !('0' <= c && c <= '9') {
            proof {
                assert(d[i - start] == c);
                assert(!is_digit(c));
                assert(!is_digit(d[i - start]));
            }
            return None;
        }
        let ghost t = d.take(i - start + 1);
        assert(t.drop_last() =~= d.take(i - start));
        assert(t.last() == c);
        let v: u32 = acc * 10 + (c as u32 - '0' as u32);
        assert(digits_value(t) == v);
        if v > 255 {
            proof {
                if all_digits(d) {
                    lemma_digits_value_prefix(d, i - start + 1);
                }
            }
            return None;
        }
        acc = v;
        i = i + 1;
    }
    assert(d.take(n - start) =~= d);
    Some(acc as u8)
}

/// The pieces of a text between commas; a text without a comma is one piece.
pub open spec fn split_commas(s: Seq<char>) -> Seq<Seq<char>>
    decreases s.len(),
{
    if s.len() == 0 {
        seq![Seq::<char>::empty()]
    } else if s.last() == ',' {
        split_commas(s.drop_last()).push(Seq::<char>::empty())
    } else {
        let p = split_commas(s.drop_last());
        p.update(p.len() - 1, p.last().push(s.last()))
    }
}

proof fn lemma_split_commas_nonempty(s: Seq<char>)
    ensures
        split_commas(s).len() >= 1,
    decreases s.len(),
{
    if s.len() > 0 {
        lemma_split_commas_nonempty(s.drop_last());
    }
}

/// A piece of a byte list is read after trimming.
pub open spec fn piece_value(piece: Seq<char>) -> Option<u8> {
    decimal_u8(trim_of(piece))
}

/// The bytes a comma-separated list of decimal values writes, if every
/// piece is one.
pub open spec fn byte_list_of(s: Seq<char>) -> Option<Seq<u8>> {
    let p = split_commas(s);
    if forall|k: int| 0 <= k < p.len() ==> (#[trigger] piece_value(p[k])) is Some {
        Some(Seq::new(p.len(), |k: int| piece_value(p[k])->Some_0))
    } else {
        None
    }
}

/// Reads a comma-separated list of decimal byte values, such as `1,2, 255`.
pub fn parse_byte_list(s: &str) -> (r: Option<Vec<u8>>)
    ensures
        r is Some <==> byte_list_of(s@) is Some,
        r is Some ==> r->Some_0@ == byte_list_of(s@)->Some_0,
{
    let n = s.unicode_len();
    let mut out: Vec<u8> = Vec::new();
    let mut ok = true;
    let mut start: usize = 0;
    let mut i: usize = 0;
    let ghost mut done: Seq<Seq<char>> = Seq::empty();
    assert(s@.take(0) =~= Seq::<char>::empty());
    assert(split_commas(s@.take(0)) =~= done.push(s@.subrange(0, 0)));
    while i < n
        invariant
            n == s@.len(),
            start <= i <= n,
            split_commas(s@.take(i as int)) == done.push(s@.subrange(start as int, i as int)),
            ok == (forall|k: int| 0 <= k < done.len() ==> (#[trigger] piece_value(done[k])) is Some),
            ok ==> out@ == Seq::new(done.len(), |k: int| piece_value(done[k])->Some_0),
        decreases n - i,
    {
        let c = s.get_char(i);
        let ghost prev = s@.take(i as int);
        assert(s@.take(i + 1).drop_last() =~= prev);
        assert(s@.take(i + 1).last() == c);
        if c == ',' {
            let piece = s.substring_char(start, i);
            let v = parse_decimal_u8(trim(piece));
            match v {
                Some(b) => {
                    if ok {
                        out.push(b);
                    }
                },
                None => {
                    ok = false;
                },
            }
            proof {
                let old_done = done;
                done = done.push(s@.subrange(start as int, i as int));
                assert(s@.subrange(i + 1, i + 1) =~= Seq::<char>::empty());
                if ok {
                    assert forall|k: int| 0 <= k < done.len() implies (#[trigger] piece_value(done[k])) is Some by {
                        if k < old_done.len() {
                            assert(done[k] == old_done[k]);
                        }
                    }
                    assert(out@ =~= Seq::new(done.len(), |k: int| piece_value(done[k])->Some_0));
                } else {
                    if v is None {
                        assert(piece_value(done[old_done.len() as int]) is None);
                    } else {
                        let k0 = choose|k: int| 0 <= k < old_done.len() && !(#[trigger] piece_value(old_done[k]) is Some);
                        assert(done[k0] == old_done[k0]);
                    }
                }
            }
            start = i + 1;
        } else {
            assert(s@.subrange(start as int, i + 1) =~= s@.subrange(start as int, i as int).push(c));
            assert(done.push(s@.subrange(start as int, i as int)).update(done.len() as int, s@.subrange(start as int, i + 1))
                =~= done.push(s@.subrange(start as int, i + 1)));
        }
        i = i + 1;
    }
    assert(s@.take(n as int) =~= s@);
    let piece = s.substring_char(start, n);
    let v = parse_decimal_u8(trim(piece));
    let ghost p = done.push(s@.subrange(start as int, n as int));
    match v {
        Some(b) => {
            if ok {
                out.push(b);
                assert forall|k: int| 0 <= k < p.len() implies (#[trigger] piece_value(p[k])) is Some by {
                    if k < done.len() {
                        assert(p[k] == done[k]);
                    }
                }
                assert(out@ =~= Seq::new(p.len(), |k: int| piece_value(p[k])->Some_0));
                return Some(out);
            } else {
                proof {
                    let k0 = choose|k: int| 0 <= k < done.len() && !(#[trigger] piece_value(done[k]) is Some);
                    assert(p[k0] == done[k0]);
                }
                return None;
            }
        },
        None => {
            proof {
                assert(piece_value(p[done.len() as int]) is None);
            }
            return None;
        },
    }
}

/// The bytes a text argument stands for in the given format.
pub open spec fn input_bytes(input: &str, f: DataFormat) -> Result<Seq<u8>, ConvertError> {
    match f {
        DataFormat::Hex => {
            let t = without_hex_prefix(input@);
            if is_hex_text(t) {
                Ok(hex_bytes(t))
            } else {
                Err(ConvertError::InvalidHex)
            }
        },
        DataFormat::Bytes => match byte_list_of(input@) {
            Some(b) => Ok(b),
            None => Err(ConvertError::InvalidByte),
        },
        DataFormat::Utf8 => Ok(input.spec_bytes()),
    }
}

/// Reads the bytes a text argument stands for in the given format.
pub fn decode_input(input: &str, format: DataFormat) -> (r: Result<Vec<u8>, ConvertError>)
    ensures
        match input_bytes(input, format) {
            Ok(b) => r is Ok && r->Ok_0@ == b,
            Err(e) => r == Err::<Vec<u8>, ConvertError>(e),
        },
{
    match format {
        DataFormat::Hex => match hex_decode(strip_hex_prefix(input)) {
            Some(b) => Ok(b),
            None => Err(ConvertError::InvalidHex),
        },
        DataFormat::Bytes => match parse_byte_list(input) {
            Some(b) => Ok(b),
            None => Err(ConvertError::InvalidByte),
        },
        DataFormat::Utf8 => Ok(input.as_bytes_vec()),
    }
}

/// The base58 text of the bytes that `input` stands for.
pub fn encode_base58(input: &str, format: DataFormat) -> (r: Result<String, ConvertError>)
    ensures
        match input_bytes(input, format) {
            Ok(b) => r is Ok && r->Ok_0@ == base58_of(b),
            Err(e) => r == Err::<String, ConvertError>(e),
        },
{
    match decode_input(input, format) {
        Ok(b) => Ok(base58_encode(b.as_slice())),
        Err(e) => Err(e),
    }
}

/// The bytes whose base58 text is `input`. Decoding the text of any bytes
/// gives those bytes back.
pub fn decode_base58(input: &str) -> (r: Result<Vec<u8>, ConvertError>)
    ensures
        r is Ok ==> base58_of(r->Ok_0@) == input@,
        r is Err ==> r == Err::<Vec<u8>, ConvertError>(ConvertError::InvalidBase58),
        forall|b: Seq<u8>| #[trigger] base58_of(b) == input@ ==> r is Ok && r->Ok_0@ == b,
{
    match base58_decode(input) {
        Some(b) => Ok(b),
        None => Err(ConvertError::InvalidBase58),
    }
}

/// Exactly 32 bytes as an array; any other length is refused.
pub fn to_bytes32(bytes: &[u8]) -> (r: Option<[u8; 32]>)
    ensures
        r is Some <==> bytes@.len() == 32,
        r is Some ==> r->Some_0@ == bytes@,
{
    let n = bytes.len();
    if n != 32 {
        return None;
    }
    let mut r = [0u8; 32];
    let mut i: usize = 0;
    while i < 32
        invariant
            n == bytes@.len(),
            n == 32,
            i <= 32,
            forall|k: int| 0 <= k < i ==> r@[k] == bytes@[k],
        decreases 32 - i,
    {
        r[i] = bytes[i];
        i = i + 1;
    }
    assert(r@ =~= bytes@);
    Some(r)
}

/// The bytes with zeros put before them up to 32.
pub open spec fn left_padded32(b: Seq<u8>) -> Seq<u8> {
    Seq::new((32 - b.len()) as nat, |_i: int| 0u8) + b
}

/// At most 32 bytes, zero-padded on the left to 32; more are refused.
pub fn from_bytes32(bytes: &[u8]) -> (r: Option<[u8; 32]>)
    ensures
        r is Some <==> bytes@.len() <= 32,
        r is Some ==> r->Some_0@ == left_padded32(bytes@),
{
    let n = bytes.len();
    if n > 32 {
        return None;
    }
    let start: usize = 32 - n;
    let mut r = [0u8; 32];
    let mut i: usize = 0;
    while i < n
        invariant
            n == bytes@.len(),
            n <= 32,
            start == 32 - n,
            i <= n,
            forall|k: int| 0 <= k < start ==> r@[k] == 0,
            forall|k: int| 0 <= k < i ==> r@[start + k] == bytes@[k],
            forall|k: int| start + i <= k < 32 ==> r@[k] == 0,
        decreases n - i,
    {
        r[start + i] = bytes[i];
        i = i + 1;
    }
    assert(r@ =~= left_padded32(bytes@));
    Some(r)
}

} // verus!
