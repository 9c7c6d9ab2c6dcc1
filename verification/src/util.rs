//! Fixed-width, null-padded text fields.
use vstd::prelude::*;
use vstd::string::StrSliceExecFns;
use vstd::utf8::encode_utf8;

verus! {

/// How many leading items of `s` differ from `stop`.
pub open spec fn run_before<T>(s: Seq<T>, stop: T) -> nat
    decreases s.len(),
{
    if s.len() == 0 || s[0] == stop {
        0
    } else {
        1 + run_before(s.drop_first(), stop)
    }
}

/// The part of `s` in front of the first `stop`, or all of `s` where it holds none.
pub open spec fn until<T>(s: Seq<T>, stop: T) -> Seq<T> {
    s.subrange(0, run_before(s, stop) as int)
}

/// `bytes` cut or padded with zero bytes to exactly `length` bytes.
pub open spec fn padded(bytes: Seq<u8>, length: nat) -> Seq<u8> {
    Seq::new(
        length,
        |i: int|
            if i < bytes.len() {
                bytes[i]
            } else {
                0u8
            },
    )
}

/// `run_before` never runs past the end.
pub proof fn lemma_run_before_bound<T>(s: Seq<T>, stop: T)
    ensures
        run_before(s, stop) <= s.len(),
    decreases s.len(),
{
    if s.len() != 0 && s[0] != stop {
        lemma_run_before_bound(s.drop_first(), stop);
    }
}

/// An index is the result of `run_before` exactly when nothing in front of it
/// is `stop` and it is the end of `s` or the place of a `stop`.
pub proof fn lemma_run_before_is<T>(s: Seq<T>, stop: T, n: int)
    requires
        0 <= n <= s.len(),
        forall|j: int| 0 <= j < n ==> s[j] != stop,
        n == s.len() || s[n] == stop,
    ensures
        run_before(s, stop) == n,
    decreases s.len(),
{
    if s.len() != 0 && s[0] != stop {
        let rest = s.drop_first();
        assert forall|j: int| 0 <= j < n - 1 implies rest[j] != stop by {
            assert(rest[j] == s[j + 1]);
        }
        lemma_run_before_is(rest, stop, n - 1);
    }
}

/// Nothing in front of the place that `run_before` gives is `stop`, and the
/// place is the end of `s` or holds a `stop`.
pub proof fn lemma_run_before_holds<T>(s: Seq<T>, stop: T)
    ensures
        run_before(s, stop) <= s.len(),
        forall|j: int| 0 <= j < run_before(s, stop) ==> s[j] != stop,
        run_before(s, stop) == s.len() || s[run_before(s, stop) as int] == stop,
    decreases s.len(),
{
    if s.len() != 0 && s[0] != stop {
        let rest = s.drop_first();
        lemma_run_before_holds(rest, stop);
        assert forall|j: int| 0 <= j < run_before(s, stop) implies s[j] != stop by {
            if j > 0 {
                assert(rest[j - 1] == s[j]);
            }
        }
        if run_before(rest, stop) != rest.len() {
            assert(rest[run_before(rest, stop) as int] == s[run_before(s, stop) as int]);
        }
    }
}

/// What `String::from_utf8_lossy` makes of `bytes`: the text they encode, with
/// U+FFFD in place of each ill-formed part.
pub uninterp spec fn utf8_lossy(bytes: Seq<u8>) -> Seq<char>;

/// `String::from_utf8_lossy` of std, collected into an owned `String`.
///
/// Trusted: the result is the lossy decoding of `buf`, which depends on the
/// bytes of `buf` alone.
#[verifier::external_body]
fn decode_lossy(buf: &[u8]) -> (text: String)
    ensures
        text@ == utf8_lossy(buf@),
{
    String::from_utf8_lossy(buf).into_owned()
}

/// `String::push` of std.
///
/// Trusted: the text afterwards is the text before followed by `ch`.
pub assume_specification[ String::push ](text: &mut String, ch: char)
    ensures
        final(text)@ == old(text)@.push(ch),
;

/// The text in front of the first NUL character of `text`.
pub fn null_terminated(text: &str) -> (cut: String)
    ensures
        cut@ == until(text@, '\0'),
{
    let n: usize = text.unicode_len();
    let mut i: usize = 0;
    while i < n && text.get_char(i) != '\0'
        invariant
            i <= n,
            n == text@.len(),
            forall|j: int| 0 <= j < i ==> text@[j] != '\0',
        decreases n - i,
    {
        i += 1;
    }
    proof {
        lemma_run_before_is(text@, '\0', i as int);
    }
    text.substring_char(0, i).to_owned()
}

/// Decodes a null-terminated text field: `buf` is read as UTF-8, ill-formed
/// parts become U+FFFD, and the text ends in front of the first NUL.
pub fn vec_to_null_terminated_str(buf: Vec<u8>) -> (text: String)
    ensures
        text@ == until(utf8_lossy(buf@), '\0'),
{
    let whole = decode_lossy(buf.as_slice());
    null_terminated(whole.as_str())
}

/// Encodes `str` as a text field of exactly `length` bytes: its UTF-8 bytes,
/// cut at `length` or padded with zero bytes.
pub fn string_to_vec(str: &str, length: usize) -> (field: Vec<u8>)
    ensures
        field@ == padded(encode_utf8(str@), length as nat),
{
    let bytes = str.as_bytes();
    let mut field: Vec<u8> = Vec::new();
    let mut i: usize = 0;
    while i < length
        invariant
            i <= length,
            bytes@ == encode_utf8(str@),
            field@ == padded(bytes@, i as nat),
        decreases length - i,
    {
        let b: u8 = if i < bytes.len() {
            bytes[i]
        } else {
            0
        };
        field.push(b);
        i += 1;
        assert(field@ =~= padded(bytes@, i as nat));
    }
    field
}

} // verus!
