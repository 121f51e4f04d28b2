use sha2::Digest;
use vstd::prelude::*;
use vstd::string::StringSliceAdditionalSpecFns;

verus! {

/// The SHA-256 digest of `data`.
pub uninterp spec fn sha256(data: Seq<u8>) -> Seq<u8>;

/// Calls `sha2::Sha256` (its `input` and `result`, the `Digest` trait of
/// `digest` 0.8) on `data`. Claimed: the result is the SHA-256 digest of
/// `data`, a function of `data` alone, and it is 32 bytes long (the
/// `OutputSize` of `Sha256` is `U32`).
#[verifier::external_body]
fn sha256_digest(data: &[u8]) -> (r: Vec<u8>)
    ensures
        r@ == sha256(data@),
        r@.len() == 32,
{
    let mut hasher = sha2::Sha256::default();
    hasher.input(data);
    hasher.result().to_vec()
}

/// Calls `String::push`. Claimed: `c` is appended to `s`.
#[verifier::external_body]
fn push_char(s: &mut String, c: char)
    ensures
        final(s)@ == old(s)@.push(c),
{
    s.push(c);
}

/// The upper-case hexadecimal digit of `v` (0 to 15).
pub open spec fn hex_digit(v: int) -> char {
    if v < 10 {
        (48 + v) as char
    } else {
        (55 + v) as char
    }
}

/// `bytes` written in upper-case hexadecimal, two digits per byte.
pub open spec fn upper_hex(bytes: Seq<u8>) -> Seq<char>
    decreases bytes.len(),
{
    if bytes.len() == 0 {
        Seq::empty()
    } else {
        upper_hex(bytes.drop_last()) + seq![
            hex_digit(bytes.last() as int / 16),
            hex_digit(bytes.last() as int % 16),
        ]
    }
}

/// `n` written in decimal, without leading zeros.
pub open spec fn decimal(n: nat) -> Seq<char>
    decreases n,
{
    if n < 10 {
        seq![(48 + n) as char]
    } else {
        decimal(n / 10).push((48 + n % 10) as char)
    }
}

fn hex_char(v: u8) -> (c: char)
    requires
        v < 16,
    ensures
        c == hex_digit(v as int),

{
    if v < 10 {
        (48 + v) as char
    } else {
        (55 + v) as char
    }
}

/// Appends `bytes` to `out` in upper-case hexadecimal.
fn append_upper_hex(out: &mut String, bytes: &[u8])
    ensures
        final(out)@ == old(out)@ + upper_hex(bytes@),
{
    let ghost start = out@;
    for i in 0..bytes.len()
        invariant
            out@ == start + upper_hex(bytes@.take(i as int)),
    {
        let b = bytes[i];
        push_char(out, hex_char(b / 16));
        push_char(out, hex_char(b % 16));
        assert(bytes@.take(i + 1).drop_last() =~= bytes@.take(i as int));
        assert(out@ =~= start + upper_hex(bytes@.take(i + 1)));
    }
    assert(bytes@.take(bytes@.len() as int) =~= bytes@);
}

/// Appends `n` to `out` in decimal.
fn append_decimal(out: &mut String, n: u32)
    ensures
        final(out)@ == old(out)@ + decimal(n as nat),
    decreases n,
{
    if n >= 10 {
        append_decimal(out, n / 10);
    }
    let d = (n % 10) as u8;
    push_char(out, (48 + d) as char);
    assert(out@ =~= old(out)@ + decimal(n as nat));
}

proof fn lemma_upper_hex_len(bytes: Seq<u8>)
    ensures
        upper_hex(bytes).len() == 2 * bytes.len(),
    decreases bytes.len(),
{
    if bytes.len() > 0 {
        lemma_upper_hex_len(bytes.drop_last());
    }
}

/// The SHA-256 digest of `input`, in upper-case hexadecimal: 64 digits.
pub fn sha2(input: &str) -> (s: String)
    ensures
        s@ == upper_hex(sha256(input.spec_bytes())),
        s@.len() == 64,
{
    let digest = sha256_digest(input.as_bytes());
    let mut s = String::new();
    append_upper_hex(&mut s, digest.as_slice());
    assert(s@ =~= upper_hex(sha256(input.spec_bytes())));
    proof {
        lemma_upper_hex_len(digest@);
    }
    s
}

/// The base name of the image of a fractal at a size: `<width>x<height>_`
/// followed by the digest of its json.
pub open spec fn image_name(width: u32, height: u32, json: Seq<u8>) -> Seq<char> {
    decimal(width as nat) + seq!['x'] + decimal(height as nat) + seq!['_'] + upper_hex(sha256(json))
}

/// The base name of the rendered image of the fractal `json` at `dim`.
pub fn render_basename(json: &str, dim: (u32, u32)) -> (s: String)
    ensures
        s@ == image_name(dim.0, dim.1, json.spec_bytes()),
{
    let mut s = String::new();
    append_decimal(&mut s, dim.0);
    push_char(&mut s, 'x');
    append_decimal(&mut s, dim.1);
    push_char(&mut s, '_');
    let digest = sha2(json);
    s.append(digest.as_str());
    assert(s@ =~= image_name(dim.0, dim.1, json.spec_bytes()));
    s
}

/// The base name of the draft image of the fractal `json` at `dim`: the
/// name of its rendered image behind `d_`.
pub fn draft_basename(json: &str, dim: (u32, u32)) -> (s: String)
    ensures
        s@ == seq!['d', '_'] + image_name(dim.0, dim.1, json.spec_bytes()),
{
    let mut s = String::new();
    push_char(&mut s, 'd');
    push_char(&mut s, '_');
    let name = render_basename(json, dim);
    s.append(name.as_str());
    assert(s@ =~= seq!['d', '_'] + image_name(dim.0, dim.1, json.spec_bytes()));
    s
}

/// Whether `c` is one of the decimal digits `0` to `9`.
pub open spec fn is_digit(c: char) -> bool {
    48 <= c as int <= 57
}

/// The number that the decimal digits `s` stand for, most significant first.
pub open spec fn digits_value(s: Seq<char>) -> int
    decreases s.len(),
{
    if s.len() == 0 {
        0
    } else {
        digits_value(s.drop_last()) * 10 + (s.last() as int - 48)
    }
}

/// `decimal(n)` is a non-empty string of decimal digits that reads back as `n`.
pub proof fn lemma_decimal_reads_back(n: nat)
    ensures
        decimal(n).len() >= 1,
        forall|i: int| 0 <= i < decimal(n).len() ==> is_digit(#[trigger] decimal(n)[i]),
        digits_value(decimal(n)) == n,
    decreases n,
{
    if n >= 10 {
        lemma_decimal_reads_back(n / 10);
        let s = decimal(n);
        let t = decimal(n / 10);
        assert(s.drop_last() =~= t);
        assert(s.last() as int == 48 + n % 10);
        assert(n == (n / 10) * 10 + n % 10);
        assert(digits_value(s) == digits_value(t) * 10 + (s.last() as int - 48));
        assert forall|i: int| 0 <= i < s.len() implies is_digit(#[trigger] s[i]) by {
            if i < t.len() {
                assert(s[i] == t[i]);
            }
        }
    } else {
        assert(decimal(n).last() as int == 48 + n);
        assert(decimal(n).drop_last() =~= Seq::<char>::empty());
        assert(digits_value(Seq::<char>::empty()) == 0);
    }
}

/// Two strings made of a decimal number, the separator `sep` (not a digit)
/// and a rest are equal only when the numbers and the rests are.
proof fn lemma_split_after_number(a: nat, b: nat, sep: char, r1: Seq<char>, r2: Seq<char>)
    requires
        !is_digit(sep),
        decimal(a) + seq![sep] + r1 == decimal(b) + seq![sep] + r2,
    ensures
        a == b,
        r1 == r2,
{
    let x = decimal(a);
    let y = decimal(b);
    let s = decimal(a) + seq![sep] + r1;
    lemma_decimal_reads_back(a);
    lemma_decimal_reads_back(b);
    if x.len() < y.len() {
        assert(s[x.len() as int] == sep);
        assert(s[x.len() as int] == y[x.len() as int]);
        assert(false);
    }
    if y.len() < x.len() {
        assert(s[y.len() as int] == sep);
        assert(s[y.len() as int] == x[y.len() as int]);
        assert(false);
    }
    assert(x =~= s.take(x.len() as int));
    assert(y =~= s.take(x.len() as int));
    assert(r1 =~= s.skip(x.len() as int + 1));
    assert(r2 =~= s.skip(x.len() as int + 1));
}

/// Images of different sizes never share a name: the name of an image
/// determines its width and its height.
pub proof fn lemma_image_name_determines_size(
    w1: u32,
    h1: u32,
    json1: Seq<u8>,
    w2: u32,
    h2: u32,
    json2: Seq<u8>,
)
    requires
        image_name(w1, h1, json1) == image_name(w2, h2, json2),
    ensures
        w1 == w2,
        h1 == h2,
{
    let t1 = decimal(h1 as nat) + seq!['_'] + upper_hex(sha256(json1));
    let t2 = decimal(h2 as nat) + seq!['_'] + upper_hex(sha256(json2));
    assert(image_name(w1, h1, json1) =~= decimal(w1 as nat) + seq!['x'] + t1);
    assert(image_name(w2, h2, json2) =~= decimal(w2 as nat) + seq!['x'] + t2);
    lemma_split_after_number(w1 as nat, w2 as nat, 'x', t1, t2);
    lemma_split_after_number(
        h1 as nat,
        h2 as nat,
        '_',
        upper_hex(sha256(json1)),
        upper_hex(sha256(json2)),
    );
}

/// Whether `name` reads, from its start, as `k` decimal digits giving
/// `width`, `x`, `m` decimal digits giving `height`, `_`, and then `rest`.
pub open spec fn reads_as_size(name: Seq<char>, k: int, m: int, width: int, height: int, rest: Seq<char>) -> bool {
    &&& 1 <= k
    &&& 1 <= m
    &&& k + m + 2 <= name.len()
    &&& forall|i: int| 0 <= i < k ==> is_digit(#[trigger] name[i])
    &&& name[k] == 'x'
    &&& digits_value(name.take(k)) == width
    &&& forall|i: int| k < i <= k + m ==> is_digit(#[trigger] name[i])
    &&& name[k + m + 1] == '_'
    &&& digits_value(name.subrange(k + 1, k + m + 1)) == height
    &&& name.skip(k + m + 2) == rest
}

/// The name of an image reads back as its size and digest: decimal digits
/// giving the width, `x`, decimal digits giving the height, `_`, and the
/// upper-case hexadecimal digest of the json.
pub proof fn lemma_image_name_reads_back(width: u32, height: u32, json: Seq<u8>)
    ensures
        exists|k: int, m: int|
            #[trigger] reads_as_size(
                image_name(width, height, json),
                k,
                m,
                width as int,
                height as int,
                upper_hex(sha256(json)),
            ),
{
    let name = image_name(width, height, json);
    let a = decimal(width as nat);
    let b = decimal(height as nat);
    let k = a.len() as int;
    let m = b.len() as int;
    lemma_decimal_reads_back(width as nat);
    lemma_decimal_reads_back(height as nat);
    assert(name.take(k) =~= a);
    assert(name.subrange(k + 1, k + m + 1) =~= b);
    assert(name.skip(k + m + 2) =~= upper_hex(sha256(json)));
    assert forall|i: int| 0 <= i < k implies is_digit(#[trigger] name[i]) by {
        assert(name[i] == a[i]);
    }
    assert forall|i: int| k < i <= k + m implies is_digit(#[trigger] name[i]) by {
        assert(name[i] == b[i - k - 1]);
    }
    assert(name[k] == 'x');
    assert(name[k + m + 1] == '_');
    assert(reads_as_size(name, k, m, width as int, height as int, upper_hex(sha256(json))));
}

} // verus!
