use vstd::prelude::*;
use rand::Rng;
use rand::distributions::Alphanumeric;

verus! {

/// The byte is an ASCII letter or digit.
pub open spec fn is_ascii_alphanumeric_byte(b: u8) -> bool {
    (65 <= b <= 90) || (97 <= b <= 122) || (48 <= b <= 57)
}

/// The character is one of the bytes of `cs`, read as ASCII.
pub open spec fn char_from_set(cs: Seq<u8>, ch: char) -> bool {
    exists|j: int| 0 <= j < cs.len() && ch == cs[j] as char
}

/// The character is an ASCII letter or digit.
pub open spec fn is_alphanumeric_char(ch: char) -> bool {
    exists|b: u8| is_ascii_alphanumeric_byte(b) && ch == b as char
}

/// Relies on rand's `Alphanumeric` distribution: every sample is one of the
/// 62 ASCII letters and digits.
#[verifier::external_body]
fn sample_alphanumeric_byte() -> (b: u8)
    ensures
        is_ascii_alphanumeric_byte(b),
{
    rand::thread_rng().sample(Alphanumeric)
}

/// Relies on `rand::Rng::gen_range` over `0..n`: a uniform value strictly
/// below `n`; the non-empty range rules out the documented panic.
#[verifier::external_body]
fn sample_below(n: usize) -> (r: usize)
    requires
        n >= 1,
    ensures
        r < n,
{
    rand::thread_rng().gen_range(0..n)
}

/// Relies on `String::from_utf8`: bytes below 128 are one-byte UTF-8 code
/// points, so the conversion succeeds and keeps each byte as one character.
#[verifier::external_body]
fn string_from_ascii(v: Vec<u8>) -> (r: String)
    requires
        forall|i: int| 0 <= i < v@.len() ==> v@[i] < 128,
    ensures
        r@.len() == v@.len(),
        forall|i: int| 0 <= i < v@.len() ==> r@[i] == v@[i] as char,
{
    String::from_utf8(v).unwrap()
}

/// A random string of `len` characters drawn from the given ASCII charset.
pub fn get_random_charset_string(len: usize, charset: &[u8]) -> (r: String)
    requires
        charset@.len() >= 1,
        forall|i: int| 0 <= i < charset@.len() ==> charset@[i] < 128,
    ensures
        r@.len() == len,
        forall|i: int| 0 <= i < len ==> #[trigger] char_from_set(charset@, r@[i]),
{
    let mut bytes: Vec<u8> = Vec::new();
    let mut k: usize = 0;
    while k < len
        invariant
            k <= len,
            bytes@.len() == k,
            charset@.len() >= 1,
            forall|i: int| 0 <= i < charset@.len() ==> charset@[i] < 128,
            forall|i: int|
                0 <= i < k ==> #[trigger] bytes@[i] < 128 && exists|j: int|
                    0 <= j < charset@.len() && bytes@[i] == charset@[j],
        decreases len - k,
    {
        let idx = sample_below(charset.len());
        bytes.push(charset[idx]);
        k = k + 1;
    }
    let s = string_from_ascii(bytes);
    proof {
        assert forall|i: int| 0 <= i < len implies #[trigger] char_from_set(
            charset@,
            s@[i],
        ) by {
            let j = choose|j: int| 0 <= j < charset@.len() && bytes@[i] == charset@[j];
            assert(s@[i] == bytes@[i] as char);
            assert(0 <= j < charset@.len() && s@[i] == charset@[j] as char);
        }
    }
    s
}

/// A random string of `len` ASCII letters and digits.
pub fn get_random_alphanumeric_string(len: usize) -> (r: String)
    ensures
        r@.len() == len,
        forall|i: int| 0 <= i < len ==> #[trigger] is_alphanumeric_char(r@[i]),
{
    let mut bytes: Vec<u8> = Vec::new();
    let mut k: usize = 0;
    while k < len
        invariant
            k <= len,
            bytes@.len() == k,
            forall|i: int|
                0 <= i < k ==> is_ascii_alphanumeric_byte(#[trigger] bytes@[i]),
        decreases len - k,
    {
        let b = sample_alphanumeric_byte();
        bytes.push(b);
        k = k + 1;
    }
    proof {
        assert forall|i: int| 0 <= i < len implies bytes@[i] < 128 by {
            assert(is_ascii_alphanumeric_byte(bytes@[i]));
        }
    }
    let s = string_from_ascii(bytes);
    proof {
        assert forall|i: int| 0 <= i < len implies #[trigger] is_alphanumeric_char(
            s@[i],
        ) by {
            assert(s@[i] == bytes@[i] as char);
            assert(is_ascii_alphanumeric_byte(bytes@[i]) && s@[i] == bytes@[i] as char);
        }
    }
    s
}

} // verus!
